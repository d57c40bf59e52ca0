//! Counting the squares that have a property: over a row, over the whole grid,
//! and over the eight squares around one square.

use vstd::prelude::*;
use crate::cell::{Cell, neighbor};

verus! {

/// How many of the first `n` squares of `row` satisfy `p`.
pub open spec fn count_row(row: Seq<Cell>, p: spec_fn(Cell) -> bool, n: int) -> int
    decreases n,
{
    if n <= 0 {
        0
    } else {
        count_row(row, p, n - 1) + if p(row[n - 1]) { 1int } else { 0int }
    }
}

/// How many squares in the first `n` rows of `grid` satisfy `p`.
pub open spec fn count_rows(grid: Seq<Seq<Cell>>, p: spec_fn(Cell) -> bool, n: int) -> int
    decreases n,
{
    if n <= 0 {
        0
    } else {
        count_rows(grid, p, n - 1) + count_row(grid[n - 1], p, grid[n - 1].len() as int)
    }
}

/// How many squares of `grid` satisfy `p`.
pub open spec fn count_cells(grid: Seq<Seq<Cell>>, p: spec_fn(Cell) -> bool) -> int {
    count_rows(grid, p, grid.len() as int)
}

/// How many squares satisfy `p` among those that come before `(r, c)` when the
/// grid is read row by row.
pub open spec fn count_before(grid: Seq<Seq<Cell>>, p: spec_fn(Cell) -> bool, r: int, c: int) -> int {
    count_rows(grid, p, r) + count_row(grid[r], p, c)
}

/// `(r, c)` is a square of `grid`.
pub open spec fn cell_in(grid: Seq<Seq<Cell>>, r: int, c: int) -> bool {
    0 <= r < grid.len() && 0 <= c < grid[r].len()
}

/// The `k`-th neighbour of `(r, c)` is a square of `grid` and satisfies `p`.
pub open spec fn hit(grid: Seq<Seq<Cell>>, p: spec_fn(Cell) -> bool, r: int, c: int, k: int) -> bool {
    let n = neighbor(r, c, k);
    cell_in(grid, n.0, n.1) && p(grid[n.0][n.1])
}

/// How many of the first `k` neighbours of `(r, c)` lie in `grid` and satisfy `p`.
pub open spec fn count_around(grid: Seq<Seq<Cell>>, p: spec_fn(Cell) -> bool, r: int, c: int, k: int) -> int
    decreases k,
{
    if k <= 0 {
        0
    } else {
        count_around(grid, p, r, c, k - 1) + if hit(grid, p, r, c, k - 1) { 1int } else { 0int }
    }
}

/// `grid` with the square at `(r, c)` replaced by `cell`.
pub open spec fn with_cell(grid: Seq<Seq<Cell>>, r: int, c: int, cell: Cell) -> Seq<Seq<Cell>> {
    grid.update(r, grid[r].update(c, cell))
}

/// One where `b` holds, zero where it does not.
pub open spec fn unit(b: bool) -> int {
    if b { 1 } else { 0 }
}

/// A row's count lies between zero and the number of squares counted.
pub proof fn lemma_count_row_bounds(row: Seq<Cell>, p: spec_fn(Cell) -> bool, n: int)
    requires
        0 <= n,
    ensures
        0 <= count_row(row, p, n) <= n,
    decreases n,
{
    if n > 0 {
        lemma_count_row_bounds(row, p, n - 1);
    }
}

/// The count over rows of one width lies between zero and the number of
/// their squares.
pub proof fn lemma_count_rows_bounds(grid: Seq<Seq<Cell>>, p: spec_fn(Cell) -> bool, n: int, width: int)
    requires
        0 <= n <= grid.len(),
        forall|i: int| 0 <= i < n ==> #[trigger] grid[i].len() == width,
    ensures
        0 <= count_rows(grid, p, n) <= n * width,
    decreases n,
{
    if n > 0 {
        lemma_count_rows_bounds(grid, p, n - 1, width);
        assert(grid[n - 1].len() == width);
        lemma_count_row_bounds(grid[n - 1], p, width);
        assert(n * width == (n - 1) * width + width) by (nonlinear_arith);
    } else {
        assert(n * width == 0) by (nonlinear_arith)
            requires
                n == 0,
        ;
    }
}

/// Two rows whose squares agree, one under `p` and one under `q`, count alike.
pub proof fn lemma_count_row_same(
    a: Seq<Cell>,
    p: spec_fn(Cell) -> bool,
    b: Seq<Cell>,
    q: spec_fn(Cell) -> bool,
    n: int,
)
    requires
        forall|j: int| 0 <= j < n ==> p(#[trigger] a[j]) == q(b[j]),
    ensures
        count_row(a, p, n) == count_row(b, q, n),
    decreases n,
{
    if n > 0 {
        lemma_count_row_same(a, p, b, q, n - 1);
        assert(p(a[n - 1]) == q(b[n - 1]));
    }
}

/// Two grids of one shape whose squares agree, one under `p` and one under `q`,
/// count alike.
pub proof fn lemma_count_rows_same(
    a: Seq<Seq<Cell>>,
    p: spec_fn(Cell) -> bool,
    b: Seq<Seq<Cell>>,
    q: spec_fn(Cell) -> bool,
    n: int,
)
    requires
        0 <= n <= a.len(),
        n <= b.len(),
        forall|i: int| 0 <= i < n ==> (#[trigger] a[i]).len() == b[i].len(),
        forall|i: int, j: int| 0 <= i < n && 0 <= j < a[i].len() ==> p(#[trigger] a[i][j]) == q(b[i][j]),
    ensures
        count_rows(a, p, n) == count_rows(b, q, n),
    decreases n,
{
    if n > 0 {
        lemma_count_rows_same(a, p, b, q, n - 1);
        assert(a[n - 1].len() == b[n - 1].len());
        assert forall|j: int| 0 <= j < a[n - 1].len() implies p(#[trigger] a[n - 1][j]) == q(
            b[n - 1][j],
        ) by {
            assert(p(a[n - 1][j]) == q(b[n - 1][j]));
        }
        lemma_count_row_same(a[n - 1], p, b[n - 1], q, a[n - 1].len() as int);
    }
}

/// Replacing one square moves a row's count by what the square gains or loses.
pub proof fn lemma_count_row_update(row: Seq<Cell>, p: spec_fn(Cell) -> bool, n: int, j: int, cell: Cell)
    requires
        0 <= n <= row.len(),
        0 <= j < row.len(),
    ensures
        count_row(row.update(j, cell), p, n) == count_row(row, p, n) + if j < n {
            unit(p(cell)) - unit(p(row[j]))
        } else {
            0
        },
    decreases n,
{
    if n > 0 {
        lemma_count_row_update(row, p, n - 1, j, cell);
    }
}

/// Replacing one square moves the count over the first `n` rows by what the
/// square gains or loses, if it lies in those rows.
pub proof fn lemma_count_rows_update(
    grid: Seq<Seq<Cell>>,
    p: spec_fn(Cell) -> bool,
    n: int,
    r: int,
    c: int,
    cell: Cell,
)
    requires
        0 <= n <= grid.len(),
        cell_in(grid, r, c),
    ensures
        count_rows(with_cell(grid, r, c, cell), p, n) == count_rows(grid, p, n) + if r < n {
            unit(p(cell)) - unit(p(grid[r][c]))
        } else {
            0
        },
    decreases n,
{
    if n > 0 {
        lemma_count_rows_update(grid, p, n - 1, r, c, cell);
        if r == n - 1 {
            lemma_count_row_update(grid[r], p, grid[r].len() as int, c, cell);
        }
    }
}

/// Replacing one square moves the grid's count by what the square gains or loses.
pub proof fn lemma_count_cells_update(grid: Seq<Seq<Cell>>, p: spec_fn(Cell) -> bool, r: int, c: int, cell: Cell)
    requires
        cell_in(grid, r, c),
    ensures
        count_cells(with_cell(grid, r, c, cell), p) == count_cells(grid, p) + unit(p(cell)) - unit(
            p(grid[r][c]),
        ),
{
    lemma_count_rows_update(grid, p, grid.len() as int, r, c, cell);
}

/// A row's count is zero exactly when none of its squares satisfies `p`.
pub proof fn lemma_count_row_zero(row: Seq<Cell>, p: spec_fn(Cell) -> bool, n: int)
    requires
        0 <= n,
    ensures
        count_row(row, p, n) == 0 <==> forall|j: int| 0 <= j < n ==> !p(#[trigger] row[j]),
    decreases n,
{
    if n > 0 {
        lemma_count_row_zero(row, p, n - 1);
        lemma_count_row_bounds(row, p, n - 1);
        if count_row(row, p, n) == 0 {
            assert forall|j: int| 0 <= j < n implies !p(#[trigger] row[j]) by {}
        } else {
            if p(row[n - 1]) {
            } else {
                let j = choose|j: int| 0 <= j < n - 1 && p(#[trigger] row[j]);
                assert(p(row[j]));
            }
        }
    }
}

/// The count over the first `n` rows is zero exactly when no square in them
/// satisfies `p`.
pub proof fn lemma_count_rows_zero(grid: Seq<Seq<Cell>>, p: spec_fn(Cell) -> bool, n: int)
    requires
        0 <= n <= grid.len(),
    ensures
        count_rows(grid, p, n) == 0 <==> forall|i: int, j: int|
            0 <= i < n && 0 <= j < grid[i].len() ==> !p(#[trigger] grid[i][j]),
    decreases n,
{
    if n > 0 {
        lemma_count_rows_zero(grid, p, n - 1);
        lemma_count_row_zero(grid[n - 1], p, grid[n - 1].len() as int);
        lemma_count_row_bounds(grid[n - 1], p, grid[n - 1].len() as int);
        let none_before = forall|i: int, j: int|
            0 <= i < n - 1 && 0 <= j < grid[i].len() ==> !p(#[trigger] grid[i][j]);
        let none_last = forall|j: int| 0 <= j < grid[n - 1].len() ==> !p(#[trigger] grid[n - 1][j]);
        let none = forall|i: int, j: int|
            0 <= i < n && 0 <= j < grid[i].len() ==> !p(#[trigger] grid[i][j]);
        if n - 1 > 0 {
            lemma_count_rows_nonnegative(grid, p, n - 1);
        }
        if none {
            assert(none_before);
            assert(none_last);
        }
        if none_before && none_last {
            assert forall|i: int, j: int| 0 <= i < n && 0 <= j < grid[i].len() implies !p(
                #[trigger] grid[i][j],
            ) by {
                if i < n - 1 {
                } else {
                    assert(!p(grid[n - 1][j]));
                }
            }
        }
    }
}

/// The count over the first rows is not negative.
pub proof fn lemma_count_rows_nonnegative(grid: Seq<Seq<Cell>>, p: spec_fn(Cell) -> bool, n: int)
    requires
        0 <= n <= grid.len(),
    ensures
        0 <= count_rows(grid, p, n),
    decreases n,
{
    if n > 0 {
        lemma_count_rows_nonnegative(grid, p, n - 1);
        lemma_count_row_bounds(grid[n - 1], p, grid[n - 1].len() as int);
    }
}

/// A row's count grows with the number of squares counted.
pub proof fn lemma_count_row_grows(row: Seq<Cell>, p: spec_fn(Cell) -> bool, m: int, n: int)
    requires
        0 <= m <= n,
    ensures
        count_row(row, p, m) <= count_row(row, p, n),
    decreases n,
{
    if m < n {
        lemma_count_row_grows(row, p, m, n - 1);
    }
}

/// Two grids whose neighbours of `(r, c)` agree, one under `p` and one under
/// `q`, count alike around `(r, c)`.
pub proof fn lemma_count_around_same(
    a: Seq<Seq<Cell>>,
    p: spec_fn(Cell) -> bool,
    b: Seq<Seq<Cell>>,
    q: spec_fn(Cell) -> bool,
    r: int,
    c: int,
    k: int,
)
    requires
        forall|j: int| 0 <= j < k ==> #[trigger] hit(a, p, r, c, j) == hit(b, q, r, c, j),
    ensures
        count_around(a, p, r, c, k) == count_around(b, q, r, c, k),
    decreases k,
{
    if k > 0 {
        lemma_count_around_same(a, p, b, q, r, c, k - 1);
        assert(hit(a, p, r, c, k - 1) == hit(b, q, r, c, k - 1));
    }
}

/// Where every neighbour counted under `p` is counted under `q` too, the count
/// under `p` is the smaller, and the two are equal only if they count the same
/// neighbours.
pub proof fn lemma_count_around_within(
    grid: Seq<Seq<Cell>>,
    p: spec_fn(Cell) -> bool,
    q: spec_fn(Cell) -> bool,
    r: int,
    c: int,
    k: int,
)
    requires
        0 <= k,
        forall|j: int| 0 <= j < k && #[trigger] hit(grid, p, r, c, j) ==> hit(grid, q, r, c, j),
    ensures
        count_around(grid, p, r, c, k) <= count_around(grid, q, r, c, k),
        count_around(grid, p, r, c, k) == count_around(grid, q, r, c, k) ==> forall|j: int|
            0 <= j < k ==> #[trigger] hit(grid, p, r, c, j) == hit(grid, q, r, c, j),
    decreases k,
{
    if k > 0 {
        lemma_count_around_within(grid, p, q, r, c, k - 1);
        assert(hit(grid, p, r, c, k - 1) ==> hit(grid, q, r, c, k - 1));
    }
}

/// A row in which every square satisfies `p` counts all of its squares.
pub proof fn lemma_count_row_full(row: Seq<Cell>, p: spec_fn(Cell) -> bool, n: int)
    requires
        0 <= n,
        forall|j: int| 0 <= j < n ==> p(#[trigger] row[j]),
    ensures
        count_row(row, p, n) == n,
    decreases n,
{
    if n > 0 {
        lemma_count_row_full(row, p, n - 1);
        assert(p(row[n - 1]));
    }
}

/// A grid of rows of one width in which every square satisfies `p` counts all
/// of its squares.
pub proof fn lemma_count_rows_full(grid: Seq<Seq<Cell>>, p: spec_fn(Cell) -> bool, n: int, width: int)
    requires
        0 <= n <= grid.len(),
        forall|i: int| 0 <= i < n ==> (#[trigger] grid[i]).len() == width,
        forall|i: int, j: int| 0 <= i < n && 0 <= j < width ==> p(#[trigger] grid[i][j]),
    ensures
        count_rows(grid, p, n) == n * width,
    decreases n,
{
    if n > 0 {
        lemma_count_rows_full(grid, p, n - 1, width);
        assert(grid[n - 1].len() == width);
        assert forall|j: int| 0 <= j < width implies p(#[trigger] grid[n - 1][j]) by {
            assert(p(grid[n - 1][j]));
        }
        lemma_count_row_full(grid[n - 1], p, width);
        assert(n * width == (n - 1) * width + width) by (nonlinear_arith);
    } else {
        assert(n * width == 0) by (nonlinear_arith)
            requires
                n == 0,
        ;
    }
}

/// The count over the first rows grows with the number of rows.
pub proof fn lemma_count_rows_grows(grid: Seq<Seq<Cell>>, p: spec_fn(Cell) -> bool, m: int, n: int)
    requires
        0 <= m <= n <= grid.len(),
    ensures
        count_rows(grid, p, m) <= count_rows(grid, p, n),
    decreases n,
{
    if m < n {
        lemma_count_rows_grows(grid, p, m, n - 1);
        lemma_count_row_bounds(grid[n - 1], p, grid[n - 1].len() as int);
    }
}

/// What is counted up to and with one square is within the grid's count.
pub proof fn lemma_count_before_within(grid: Seq<Seq<Cell>>, p: spec_fn(Cell) -> bool, r: int, c: int)
    requires
        cell_in(grid, r, c),
    ensures
        0 <= count_before(grid, p, r, c),
        count_before(grid, p, r, c) + unit(p(grid[r][c])) <= count_cells(grid, p),
{
    lemma_count_rows_nonnegative(grid, p, r);
    lemma_count_row_bounds(grid[r], p, c);
    lemma_count_row_grows(grid[r], p, c + 1, grid[r].len() as int);
    lemma_count_rows_grows(grid, p, r + 1, grid.len() as int);
}

} // verus!

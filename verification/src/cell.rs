//! One square of the grid, and the neighbourhood relation between squares.

use vstd::prelude::*;

verus! {

/// One square of the grid.
#[derive(Debug, Clone, Copy, PartialEq, Eq, Structural)]
pub struct Cell {
    pub column: usize,
    pub flagged: bool,
    pub mine: bool,
    pub opened: bool,
    pub row: usize,
    pub value: u8,
}

/// `b` is one of the eight squares that touch `a`, by an edge or by a corner.
pub open spec fn adjacency(a: (int, int), b: (int, int)) -> bool {
    &&& -1 <= b.0 - a.0 <= 1
    &&& -1 <= b.1 - a.1 <= 1
    &&& a != b
}

/// The `k`-th of the eight steps from a square to a neighbour, as (rows, columns).
pub open spec fn offset(k: int) -> (int, int) {
    if k == 0 {
        (-1, -1)
    } else if k == 1 {
        (0, -1)
    } else if k == 2 {
        (1, -1)
    } else if k == 3 {
        (-1, 0)
    } else if k == 4 {
        (1, 0)
    } else if k == 5 {
        (-1, 1)
    } else if k == 6 {
        (0, 1)
    } else {
        (1, 1)
    }
}

/// The square reached from `(r, c)` by the `k`-th step.
pub open spec fn neighbor(r: int, c: int, k: int) -> (int, int) {
    (r + offset(k).0, c + offset(k).1)
}

/// The number of the step that leads from `a` to the adjacent square `b`.
pub open spec fn step_between(a: (int, int), b: (int, int)) -> int {
    let dr = b.0 - a.0;
    let dc = b.1 - a.1;
    if dc == -1 {
        dr + 1
    } else if dc == 0 {
        if dr == -1 { 3 } else { 4 }
    } else {
        dr + 6
    }
}

/// The eight steps lead to exactly the adjacent squares, each once.
pub proof fn lemma_steps_are_adjacency(a: (int, int), b: (int, int))
    ensures
        adjacency(a, b) <==> exists|k: int| 0 <= k < 8 && #[trigger] neighbor(a.0, a.1, k) == b,
        adjacency(a, b) ==> 0 <= step_between(a, b) < 8 && neighbor(a.0, a.1, step_between(a, b)) == b,
        forall|j: int, k: int| 0 <= j < k < 8 ==> neighbor(a.0, a.1, j) != neighbor(a.0, a.1, k),
{
    if adjacency(a, b) {
        assert(neighbor(a.0, a.1, step_between(a, b)) == b);
    }
}

/// The `k`-th step, for executable code.
pub fn surround(k: usize) -> (step: (isize, isize))
    requires
        k < 8,
    ensures
        step.0 == offset(k as int).0,
        step.1 == offset(k as int).1,
{
    if k == 0 {
        (-1, -1)
    } else if k == 1 {
        (0, -1)
    } else if k == 2 {
        (1, -1)
    } else if k == 3 {
        (-1, 0)
    } else if k == 4 {
        (1, 0)
    } else if k == 5 {
        (-1, 1)
    } else if k == 6 {
        (0, 1)
    } else {
        (1, 1)
    }
}

impl Cell {
    /// The square's place in the grid, as (row, column).
    pub open spec fn place(&self) -> (int, int) {
        (self.row as int, self.column as int)
    }

    /// Whether `cell_position` is one of the eight squares around this one.
    pub fn surrounds(&self, cell_position: (usize, usize)) -> (yes: bool)
        ensures
            yes == adjacency(self.place(), (cell_position.0 as int, cell_position.1 as int)),
    {
        let near_row = if self.row >= cell_position.0 {
            self.row - cell_position.0 <= 1
        } else {
            cell_position.0 - self.row <= 1
        };
        let near_column = if self.column >= cell_position.1 {
            self.column - cell_position.1 <= 1
        } else {
            cell_position.1 - self.column <= 1
        };
        near_row && near_column && !(self.row == cell_position.0 && self.column
            == cell_position.1)
    }
}

} // verus!

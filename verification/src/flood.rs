//! Opening a region: from a square, every closed neighbour that is neither
//! flagged nor mined is opened, and the same goes on from each opened square
//! whose value is zero.

use vstd::prelude::*;
use crate::cell::{Cell, adjacency, neighbor, lemma_steps_are_adjacency, step_between};
use crate::board::{Board, BoardError, Signal, is_hidden_safe, is_mine};
use crate::tally::{lemma_count_cells_update, lemma_count_rows_nonnegative};

verus! {

/// A closed square without flag or mine: one that a region takes in.
pub open spec fn fillable(x: Cell) -> bool {
    !x.opened && !x.flagged && !x.mine
}

/// The signal that tells of the opening of `x`.
pub open spec fn signal_of(x: Cell) -> Signal {
    Signal::CellRevealed { row: x.row, col: x.column, is_mine: x.mine, adjacent_mine_count: x.value }
}

/// `(r, c)` waits in `queue`.
pub(crate) open spec fn queued(queue: Seq<(usize, usize)>, r: int, c: int) -> bool {
    exists|i: int| 0 <= i < queue.len() && (#[trigger] queue[i]).0 == r && queue[i].1 == c
}

impl Board {
    /// The board came from `before` by opening squares that were closed,
    /// unflagged and without a mine, and by nothing else.
    pub open spec fn only_opened(&self, before: &Board) -> bool {
        &&& self.height == before.height
        &&& self.width == before.width
        &&& self.mines == before.mines
        &&& self.initialized == before.initialized
        &&& forall|r: int, c: int|
            self.has(r, c) ==> {
                let x = #[trigger] self.at(r, c);
                x == before.at(r, c) || (fillable(before.at(r, c)) && x == (Cell {
                    opened: true,
                    ..before.at(r, c)
                }))
            }
    }

    /// The `j`-th neighbour of `(r, c)`, if it was there to take in, is open.
    pub open spec fn ok_at(&self, before: &Board, r: int, c: int, j: int) -> bool {
        let n = neighbor(r, c, j);
        self.has(n.0, n.1) && fillable(before.at(n.0, n.1)) ==> self.at(n.0, n.1).opened
    }

    /// The first `k` neighbours of `(r, c)` are open, as far as they were there
    /// to take in.
    pub open spec fn done_around(&self, before: &Board, r: int, c: int, k: int) -> bool {
        forall|j: int| 0 <= j < k ==> #[trigger] self.ok_at(before, r, c, j)
    }

    /// The region goes on from `(r, c)`: it is the square the region started
    /// from, or a square of value zero opened since `before`.
    pub open spec fn expandable(&self, before: &Board, seed: (int, int), r: int, c: int) -> bool {
        (r, c) == seed || (self.at(r, c).opened && !before.at(r, c).opened && self.at(r, c).value == 0)
    }

    /// The region is complete: around the square it started from, and around
    /// every square of value zero opened since `before`, all that was there to
    /// take in is open.
    pub open spec fn closed_under_fill(&self, before: &Board, seed: (int, int)) -> bool {
        forall|r: int, c: int|
            self.has(r, c) && #[trigger] self.expandable(before, seed, r, c) ==> self.done_around(
                before,
                r,
                c,
                8,
            )
    }

    /// Every square from which the region goes on, but `skip`, either waits in
    /// `queue` or has its neighbours done.
    pub(crate) open spec fn settled(
        &self,
        before: &Board,
        queue: Seq<(usize, usize)>,
        seed: (int, int),
        skip: (int, int),
    ) -> bool {
        forall|r: int, c: int|
            self.has(r, c) && #[trigger] self.expandable(before, seed, r, c) && (r, c) != skip ==> queued(
                queue,
                r,
                c,
            ) || self.done_around(before, r, c, 8)
    }

    /// `s` tells of a square that `before` had closed and that is open now.
    pub open spec fn reports_opening(&self, before: &Board, s: Signal) -> bool {
        match s {
            Signal::CellRevealed { row, col, is_mine, adjacent_mine_count } => {
                &&& self.has(row as int, col as int)
                &&& !before.at(row as int, col as int).opened
                &&& self.at(row as int, col as int).opened
                &&& s == signal_of(self.at(row as int, col as int))
            },
            _ => false,
        }
    }

    /// `signals` tells of the squares opened since `before`: of each of them,
    /// of nothing else, and of none twice.
    pub open spec fn told(&self, before: &Board, signals: Seq<Signal>) -> bool {
        &&& forall|i: int| 0 <= i < signals.len() ==> self.reports_opening(before, #[trigger] signals[i])
        &&& forall|r: int, c: int|
            self.has(r, c) && (#[trigger] self.at(r, c)).opened && !before.at(r, c).opened
                ==> signals.contains(signal_of(self.at(r, c)))
        &&& forall|i: int, j: int| 0 <= i < j < signals.len() ==> signals[i] != signals[j]
    }

    /// `path` starts at `seed` and goes from square to adjacent square, each of
    /// them there to take in, and all but the last of value zero.
    pub open spec fn zero_chain(&self, seed: (int, int), path: Seq<(int, int)>) -> bool {
        &&& path.len() >= 2
        &&& path[0] == seed
        &&& self.has(seed.0, seed.1)
        &&& forall|i: int|
            1 <= i < path.len() ==> {
                &&& self.has((#[trigger] path[i]).0, path[i].1)
                &&& adjacency(path[i - 1], path[i])
                &&& fillable(self.at(path[i].0, path[i].1))
            }
        &&& forall|i: int| 1 <= i < path.len() - 1 ==> self.at((#[trigger] path[i]).0, path[i].1).value == 0
    }


    /// Some chain leads from `seed` to `(r, c)`.
    pub open spec fn reached(&self, seed: (int, int), r: int, c: int) -> bool {
        exists|path: Seq<(int, int)>| #[trigger] self.zero_chain(seed, path) && path.last() == (r, c)
    }

    /// The region goes on from `(r, c)`: it is `seed`, or a square of value
    /// zero that a chain leads to.
    pub(crate) open spec fn spreads(&self, seed: (int, int), r: int, c: int) -> bool {
        (r, c) == seed || (self.reached(seed, r, c) && self.at(r, c).value == 0)
    }

    /// Every square opened since `before`, but `seed`, is one that a chain
    /// leads to.
    pub open spec fn within_reach(&self, before: &Board, seed: (int, int)) -> bool {
        forall|r: int, c: int|
            self.has(r, c) && (#[trigger] self.at(r, c)).opened && !before.at(r, c).opened && (r, c) != seed
                ==> before.reached(seed, r, c)
    }

    /// A chain goes on by one square: from a square that the region spreads
    /// from, to a neighbour that is there to take in.
    pub(crate) proof fn lemma_chain_extends(&self, seed: (int, int), from: (int, int), k: int)
        requires
            self.has(seed.0, seed.1),
            self.spreads(seed, from.0, from.1),
            0 <= k < 8,
            self.has(neighbor(from.0, from.1, k).0, neighbor(from.0, from.1, k).1),
            fillable(self.at(neighbor(from.0, from.1, k).0, neighbor(from.0, from.1, k).1)),
        ensures
            self.reached(seed, neighbor(from.0, from.1, k).0, neighbor(from.0, from.1, k).1),
    {
        let to = neighbor(from.0, from.1, k);
        lemma_steps_are_adjacency(from, to);
        assert(neighbor(from.0, from.1, k) == to);
        assert(adjacency(from, to));
        if from == seed {
            let path = seq![seed, to];
            assert(path[0] == seed);
            assert(path[1] == to);
            assert(self.zero_chain(seed, path));
            assert(path.last() == to);
        } else {
            let old_path = choose|path: Seq<(int, int)>| #[trigger]
                self.zero_chain(seed, path) && path.last() == from;
            let path = old_path.push(to);
            assert forall|i: int| 1 <= i < path.len() implies ({
                &&& self.has((#[trigger] path[i]).0, path[i].1)
                &&& adjacency(path[i - 1], path[i])
                &&& fillable(self.at(path[i].0, path[i].1))
            }) by {
                if i < old_path.len() {
                    assert(path[i] == old_path[i]);
                    assert(path[i - 1] == old_path[i - 1]);
                    assert(self.has(old_path[i].0, old_path[i].1));
                } else {
                    assert(path[i - 1] == old_path.last());
                }
            }
            assert forall|i: int| 1 <= i < path.len() - 1 implies self.at((#[trigger] path[i]).0, path[i].1).value
                == 0 by {
                assert(path[i] == old_path[i]);
                if i < old_path.len() - 1 {
                    assert(self.at(old_path[i].0, old_path[i].1).value == 0);
                }
            }
            assert(path[0] == old_path[0]);
            assert(self.zero_chain(seed, path));
            assert(path.last() == to);
        }
    }

    /// The board came from `prev` by opening the closed square at `(r, c)`.
    pub open spec fn opened_one(&self, prev: &Board, r: int, c: int) -> bool {
        &&& self.height == prev.height
        &&& self.width == prev.width
        &&& prev.has(r, c)
        &&& !prev.at(r, c).opened
        &&& self.at(r, c) == (Cell { opened: true, ..prev.at(r, c) })
        &&& forall|i: int, j: int|
            prev.has(i, j) && !(i == r && j == c) ==> #[trigger] self.at(i, j) == prev.at(i, j)
    }

    /// Opening one more square leaves done what was done around `(r, c)`.
    pub(crate) proof fn lemma_open_keeps_done(&self, prev: &Board, before: &Board, nr: int, nc: int, r: int, c: int, k: int)
        requires
            self.opened_one(prev, nr, nc),
            prev.done_around(before, r, c, k),
        ensures
            self.done_around(before, r, c, k),
    {
        assert forall|j: int| 0 <= j < k implies #[trigger] self.ok_at(before, r, c, j) by {
            assert(prev.ok_at(before, r, c, j));
            let n = neighbor(r, c, j);
            if self.has(n.0, n.1) && !(n.0 == nr && n.1 == nc) {
                assert(self.at(n.0, n.1) == prev.at(n.0, n.1));
            }
        }
    }

    /// Opening one more square, and queueing it where its value is zero,
    /// leaves every square settled from which the region goes on.
    pub(crate) proof fn lemma_open_keeps_settled(
        &self,
        prev: &Board,
        before: &Board,
        nr: int,
        nc: int,
        queue: Seq<(usize, usize)>,
        prev_queue: Seq<(usize, usize)>,
        seed: (int, int),
        skip: (int, int),
    )
        requires
            self.opened_one(prev, nr, nc),
            prev.settled(before, prev_queue, seed, skip),
            forall|r: int, c: int| queued(prev_queue, r, c) ==> queued(queue, r, c),
            prev.at(nr, nc).value == 0 ==> queued(queue, nr, nc),
        ensures
            self.settled(before, queue, seed, skip),
    {
        assert forall|r: int, c: int|
            self.has(r, c) && #[trigger] self.expandable(before, seed, r, c) && (r, c)
                != skip implies queued(queue, r, c) || self.done_around(before, r, c, 8) by {
            if prev.expandable(before, seed, r, c) {
                if queued(prev_queue, r, c) {
                } else {
                    self.lemma_open_keeps_done(prev, before, nr, nc, r, c, 8);
                }
            } else {
                if !(r == nr && c == nc) {
                    assert(self.at(r, c) == prev.at(r, c));
                }
            }
        }
    }

    /// Opening one more square that was there to take in keeps the board one
    /// that came from `before` by such openings.
    pub(crate) proof fn lemma_open_keeps_only_opened(&self, prev: &Board, before: &Board, nr: int, nc: int)
        requires
            self.opened_one(prev, nr, nc),
            self.mines == prev.mines,
            self.initialized == prev.initialized,
            prev.only_opened(before),
            !prev.at(nr, nc).mine,
            !prev.at(nr, nc).flagged,
        ensures
            self.only_opened(before),
            !before.at(nr, nc).opened,
    {
        assert(prev.at(nr, nc) == before.at(nr, nc) || (fillable(before.at(nr, nc)) && prev.at(nr, nc) == (Cell {
            opened: true,
            ..before.at(nr, nc)
        })));
        assert forall|r: int, c: int| self.has(r, c) implies ({
            let x = #[trigger] self.at(r, c);
            x == before.at(r, c) || (fillable(before.at(r, c)) && x == (Cell { opened: true, ..before.at(r, c) }))
        }) by {
            let y = prev.at(r, c);
            assert(y == before.at(r, c) || (fillable(before.at(r, c)) && y == (Cell {
                opened: true,
                ..before.at(r, c)
            })));
            if !(r == nr && c == nc) {
                assert(self.at(r, c) == prev.at(r, c));
            }
        }
    }

    /// Opening one more square and telling of it keeps the signals a true
    /// account of what was opened since `before`.
    pub(crate) proof fn lemma_open_keeps_told(&self, prev: &Board, before: &Board, nr: int, nc: int, signals: Seq<Signal>)
        requires
            self.opened_one(prev, nr, nc),
            prev.shaped(),
            !before.at(nr, nc).opened,
            prev.told(before, signals),
        ensures
            self.told(before, signals.push(signal_of(prev.at(nr, nc)))),
    {
        let fresh = signal_of(prev.at(nr, nc));
        let now = signals.push(fresh);
        assert(prev.at(nr, nc).place() == (nr, nc));
        assert(self.at(nr, nc).place() == (nr, nc));
        assert forall|i: int| 0 <= i < now.len() implies self.reports_opening(before, #[trigger] now[i]) by {
            if i < signals.len() {
                assert(prev.reports_opening(before, signals[i]));
                match signals[i] {
                    Signal::CellRevealed { row, col, is_mine, adjacent_mine_count } => {
                        assert(!(row == nr && col == nc));
                        assert(self.at(row as int, col as int) == prev.at(row as int, col as int));
                    },
                    _ => {},
                }
            } else {
                assert(now[i] == fresh);
                assert(signal_of(self.at(nr, nc)) == fresh);
            }
        }
        assert forall|r: int, c: int|
            self.has(r, c) && (#[trigger] self.at(r, c)).opened && !before.at(r, c).opened implies now.contains(
            signal_of(self.at(r, c)),
        ) by {
            if r == nr && c == nc {
                assert(now[signals.len() as int] == signal_of(self.at(r, c)));
            } else {
                assert(self.at(r, c) == prev.at(r, c));
                assert(signals.contains(signal_of(prev.at(r, c))));
                let i = choose|i: int| 0 <= i < signals.len() && signals[i] == signal_of(prev.at(r, c));
                assert(now[i] == signal_of(self.at(r, c)));
            }
        }
        assert forall|i: int, j: int| 0 <= i < j < now.len() implies now[i] != now[j] by {
            if j < signals.len() {
                assert(signals[i] != signals[j]);
            } else {
                assert(prev.reports_opening(before, signals[i]));
            }
        }
    }

    /// A complete region holds every square that a chain of squares leads to.
    pub proof fn lemma_fill_reaches(&self, before: &Board, seed: (int, int), path: Seq<(int, int)>, upto: int)
        requires
            self.only_opened(before),
            self.closed_under_fill(before, seed),
            before.zero_chain(seed, path),
            1 <= upto < path.len(),
        ensures
            self.at(path[upto].0, path[upto].1).opened,
        decreases upto,
    {
        let from = path[upto - 1];
        let to = path[upto];
        assert(adjacency(from, to));
        lemma_steps_are_adjacency(from, to);
        let j = step_between(from, to);
        assert(neighbor(from.0, from.1, j) == to);
        if upto == 1 {
            assert(self.expandable(before, seed, from.0, from.1));
        } else {
            self.lemma_fill_reaches(before, seed, path, upto - 1);
            assert(fillable(before.at(from.0, from.1)));
            assert(self.at(from.0, from.1) == before.at(from.0, from.1) || self.at(from.0, from.1) == (Cell {
                opened: true,
                ..before.at(from.0, from.1)
            }));
            assert(before.at(from.0, from.1).value == 0);
            assert(self.expandable(before, seed, from.0, from.1));
        }
        assert(self.has(from.0, from.1));
        assert(self.done_around(before, from.0, from.1, 8));
        assert(self.ok_at(before, from.0, from.1, j));
    }

    /// A board with the same squares gives the same account of what was opened.
    pub(crate) proof fn lemma_told_same_cells(&self, other: &Board, before: &Board, signals: Seq<Signal>)
        requires
            self.cells == other.cells,
            self.height == other.height,
            self.width == other.width,
            other.told(before, signals),
        ensures
            self.told(before, signals),
    {
        self.lemma_same_cells(other);
        assert forall|i: int| 0 <= i < signals.len() implies self.reports_opening(before, #[trigger] signals[i]) by {
            assert(other.reports_opening(before, signals[i]));
        }
        assert forall|r: int, c: int|
            self.has(r, c) && (#[trigger] self.at(r, c)).opened && !before.at(r, c).opened implies signals.contains(
            signal_of(self.at(r, c)),
        ) by {
            assert(other.at(r, c).opened);
        }
    }

    /// A board with the same squares has the same regions, complete or not.
    pub(crate) proof fn lemma_region_same_cells(&self, other: &Board, before: &Board, seed: (int, int))
        requires
            self.cells == other.cells,
            self.height == other.height,
            self.width == other.width,
            self.mines == other.mines,
            self.initialized == other.initialized,
            other.only_opened(before),
            other.closed_under_fill(before, seed),
            other.within_reach(before, seed),
        ensures
            self.only_opened(before),
            self.closed_under_fill(before, seed),
            self.within_reach(before, seed),
    {
        self.lemma_same_cells(other);
        assert forall|r: int, c: int|
            self.has(r, c) && (#[trigger] self.at(r, c)).opened && !before.at(r, c).opened && (r, c)
                != seed implies before.reached(seed, r, c) by {
            assert(other.at(r, c).opened);
        }
        assert forall|r: int, c: int| self.has(r, c) implies ({
            let x = #[trigger] self.at(r, c);
            x == before.at(r, c) || (fillable(before.at(r, c)) && x == (Cell { opened: true, ..before.at(r, c) }))
        }) by {
            let y = other.at(r, c);
            assert(y == before.at(r, c) || (fillable(before.at(r, c)) && y == (Cell {
                opened: true,
                ..before.at(r, c)
            })));
        }
        assert forall|r: int, c: int|
            self.has(r, c) && #[trigger] self.expandable(before, seed, r, c) implies self.done_around(
            before,
            r,
            c,
            8,
        ) by {
            assert(other.expandable(before, seed, r, c));
            assert forall|j: int| 0 <= j < 8 implies #[trigger] self.ok_at(before, r, c, j) by {
                assert(other.ok_at(before, r, c, j));
            }
        }
    }

    /// A board with the same squares came from `before` by the same openings.
    pub(crate) proof fn lemma_only_opened_same_cells(&self, other: &Board, before: &Board)
        requires
            self.cells == other.cells,
            self.height == other.height,
            self.width == other.width,
            self.mines == other.mines,
            self.initialized == other.initialized,
            other.only_opened(before),
        ensures
            self.only_opened(before),
            forall|r: int, c: int| other.opened_one(before, r, c) ==> self.opened_one(before, r, c),
    {
        self.lemma_same_cells(other);
        assert forall|r: int, c: int| self.has(r, c) implies ({
            let x = #[trigger] self.at(r, c);
            x == before.at(r, c) || (fillable(before.at(r, c)) && x == (Cell { opened: true, ..before.at(r, c) }))
        }) by {
            let y = other.at(r, c);
            assert(y == before.at(r, c) || (fillable(before.at(r, c)) && y == (Cell {
                opened: true,
                ..before.at(r, c)
            })));
        }
        assert forall|r: int, c: int| other.opened_one(before, r, c) implies self.opened_one(before, r, c) by {
            assert forall|i: int, j: int| before.has(i, j) && !(i == r && j == c) implies #[trigger] self.at(i, j)
                == before.at(i, j) by {
                assert(other.at(i, j) == before.at(i, j));
            }
        }
    }

    /// Opens the closed square at `(r, c)` and tells of it.
    pub(crate) fn uncover(&mut self, r: usize, c: usize, signals: &mut Vec<Signal>)
        requires
            old(self).wf(),
            old(self).initialized,
            old(self).has(r as int, c as int),
            !old(self).at(r as int, c as int).opened,
        ensures
            final(self).wf(),
            final(self).height == old(self).height,
            final(self).width == old(self).width,
            final(self).mines == old(self).mines,
            final(self).initialized,
            final(self).game_over == old(self).game_over,
            final(self).cells_unopened == old(self).cells_unopened - if old(self).at(r as int, c as int).mine {
                0int
            } else {
                1int
            },
            final(self).opened_one(old(self), r as int, c as int),
            final(signals)@ == old(signals)@.push(signal_of(old(self).at(r as int, c as int))),
    {
        let cell = self.cell(r, c);
        let ghost prev = *self;
        let opened = Cell { opened: true, ..cell };
        proof {
            self.lemma_grid();
            lemma_count_cells_update(self.grid(), is_mine(), r as int, c as int, opened);
            lemma_count_cells_update(self.grid(), is_hidden_safe(), r as int, c as int, opened);
        }
        self.put(r, c, opened);
        let ghost put = *self;
        proof {
            put.lemma_grid();
            lemma_count_rows_nonnegative(put.grid(), is_hidden_safe(), put.height as int);
        }
        if !cell.mine {
            self.cells_unopened = self.cells_unopened - 1;
        }
        signals.push(Signal::CellRevealed {
            row: cell.row,
            col: cell.column,
            is_mine: cell.mine,
            adjacent_mine_count: cell.value,
        });
        proof {
            self.lemma_same_cells(&put);
            assert forall|i: int, j: int| self.has(i, j) implies (#[trigger] self.at(i, j)).value
                == self.mines_around(i, j) by {
                assert(put.at(i, j).value == prev.at(i, j).value);
                assert forall|a: int, b: int| put.has(a, b) implies (#[trigger] put.at(a, b)).mine == prev.at(
                    a,
                    b,
                ).mine by {}
                put.lemma_mines_around_same(&prev, i, j);
            }
        }
    }
}

/// A board whose mines are laid and whose game goes on takes the command at
/// `(row, col)`; otherwise the command is turned down.
pub open spec fn playable(board: &Board, row: usize, col: usize) -> bool {
    board.initialized && !board.game_over && board.has(row as int, col as int)
}

/// Ends the game.
pub(crate) fn finish(board: &mut Board)
    requires
        old(board).wf(),
    ensures
        final(board).wf(),
        final(board).game_over,
        final(board).cells == old(board).cells,
        final(board).height == old(board).height,
        final(board).width == old(board).width,
        final(board).mines == old(board).mines,
        final(board).initialized == old(board).initialized,
        final(board).cells_unopened == old(board).cells_unopened,
{
    let ghost prev = *board;
    board.game_over = true;
    proof {
        board.lemma_same_cells(&prev);
        if board.initialized {
            assert forall|r: int, c: int| board.has(r, c) implies (#[trigger] board.at(r, c)).value
                == board.mines_around(r, c) by {
                assert(prev.at(r, c).value == prev.mines_around(r, c));
            }
        } else {
            assert forall|r: int, c: int| board.has(r, c) implies ({
                let x = #[trigger] board.at(r, c);
                !x.mine && !x.opened && x.value == 0
            }) by {
                assert(!prev.at(r, c).mine);
            }
        }
    }
}

/// Ends the game as won where nothing is left to open, and tells of it.
pub(crate) fn check_cleared(board: &mut Board, signals: &mut Vec<Signal>)
    requires
        old(board).wf(),
        !old(board).game_over,
    ensures
        final(board).wf(),
        final(board).cells == old(board).cells,
        final(board).height == old(board).height,
        final(board).width == old(board).width,
        final(board).mines == old(board).mines,
        final(board).initialized == old(board).initialized,
        final(board).cells_unopened == old(board).cells_unopened,
        final(board).game_over == (old(board).cells_unopened == 0),
        final(signals)@ == if old(board).cells_unopened == 0 {
            old(signals)@.push(Signal::BoardCleared)
        } else {
            old(signals)@
        },
{
    if board.cells_unopened == 0 {
        finish(board);
        signals.push(Signal::BoardCleared);
    }
}

/// Opens the region around `(row, col)`: every neighbour there to take in,
/// and so on from each opened square of value zero.
pub(crate) fn flood(
    board: &mut Board,
    row: usize,
    col: usize,
    signals: &mut Vec<Signal>,
    Ghost(before): Ghost<Board>,
)
    requires
        old(board).wf(),
        old(board).initialized,
        old(board).has(row as int, col as int),
        old(board).only_opened(&before),
        old(board).told(&before, old(signals)@),
        forall|r: int, c: int|
            old(board).has(r, c) && !(r == row && c == col) ==> #[trigger] old(board).at(r, c) == before.at(r, c),
    ensures
        final(board).wf(),
        final(board).game_over == old(board).game_over,
        final(board).only_opened(&before),
        final(board).told(&before, final(signals)@),
        final(board).closed_under_fill(&before, (row as int, col as int)),
        final(board).within_reach(&before, (row as int, col as int)),
        final(board).cells_unopened <= old(board).cells_unopened,
        forall|i: int| 0 <= i < old(signals)@.len() ==> final(signals)@[i] == old(signals)@[i],
        final(signals)@.len() - old(signals)@.len()
            == old(board).cells_unopened - final(board).cells_unopened,
{
    let ghost seed = (row as int, col as int);
    let ghost nowhere = (-1int, -1int);
    let ghost first_count = board.cells_unopened;
    let ghost first_told = signals@.len();
    let ghost first_signals = signals@;
    let ghost over = board.game_over;
    let mut queue: Vec<(usize, usize)> = Vec::new();
    queue.push((row, col));
    proof {
        assert(queue@[0] == (row, col));
        assert(queued(queue@, row as int, col as int));
        assert forall|r: int, c: int|
            board.has(r, c) && (#[trigger] board.at(r, c)).opened && !before.at(r, c).opened && (r, c)
                != seed implies before.reached(seed, r, c) by {
            assert(board.at(r, c) == before.at(r, c));
        }
        assert forall|r: int, c: int|
            board.has(r, c) && #[trigger] board.expandable(&before, seed, r, c) && (r, c)
                != nowhere implies queued(queue@, r, c) || board.done_around(&before, r, c, 8) by {
            if !(r == row && c == col) {
                assert(board.at(r, c) == before.at(r, c));
            }
        }
    }
    while queue.len() > 0
        invariant
            nowhere == (-1int, -1int),
            board.wf(),
            board.initialized,
            board.game_over == over,
            board.only_opened(&before),
            board.told(&before, signals@),
            board.settled(&before, queue@, seed, nowhere),
            board.within_reach(&before, seed),
            seed == (row as int, col as int),
            before.has(seed.0, seed.1),
            forall|i: int| 0 <= i < queue.len() ==> board.has((#[trigger] queue[i]).0 as int, queue[i].1 as int),
            forall|i: int|
                0 <= i < queue.len() ==> before.spreads(seed, (#[trigger] queue[i]).0 as int, queue[i].1 as int),
            board.cells_unopened <= first_count,
            first_told == first_signals.len(),
            forall|i: int| 0 <= i < first_told ==> signals@[i] == first_signals[i],
            signals@.len() - first_told == first_count - board.cells_unopened,
        decreases board.cells_unopened, queue.len(),
    {
        let ghost full = queue@;
        let popped: (usize, usize) = queue.pop().unwrap();
        let cr: usize = popped.0;
        let cc: usize = popped.1;
        let ghost rest = queue@;
        let ghost count = board.cells_unopened;
        let ghost here = (cr as int, cc as int);
        proof {
            assert(full[full.len() - 1] == popped);
            assert(before.spreads(seed, full[full.len() - 1].0 as int, full[full.len() - 1].1 as int));
            assert forall|i: int| 0 <= i < rest.len() implies before.spreads(
                seed,
                (#[trigger] rest[i]).0 as int,
                rest[i].1 as int,
            ) by {
                assert(rest[i] == full[i]);
            }
            assert forall|r: int, c: int|
                board.has(r, c) && #[trigger] board.expandable(&before, seed, r, c) && (r, c)
                    != here implies queued(rest, r, c) || board.done_around(&before, r, c, 8) by {
                assert((r, c) != nowhere);
                if queued(full, r, c) {
                    let i = choose|i: int| 0 <= i < full.len() && (#[trigger] full[i]).0 == r && full[i].1 == c;
                    if i < full.len() - 1 {
                        assert(rest[i] == full[i]);
                    } else {
                        assert(full[i] == popped);
                    }
                }
            }
        }
        let mut k: usize = 0;
        while k < 8
            invariant
                k <= 8,
                board.wf(),
                board.initialized,
                board.game_over == over,
                board.only_opened(&before),
                board.told(&before, signals@),
                board.has(cr as int, cc as int),
                here == (cr as int, cc as int),
                board.settled(&before, queue@, seed, here),
                board.done_around(&before, cr as int, cc as int, k as int),
                board.within_reach(&before, seed),
                seed == (row as int, col as int),
                before.has(seed.0, seed.1),
                before.spreads(seed, cr as int, cc as int),
                forall|i: int| 0 <= i < queue.len() ==> board.has((#[trigger] queue[i]).0 as int, queue[i].1 as int),
                forall|i: int|
                    0 <= i < queue.len() ==> before.spreads(seed, (#[trigger] queue[i]).0 as int, queue[i].1 as int),
                board.cells_unopened <= count,
                count <= first_count,
                board.cells_unopened == count ==> queue@ == rest,
                first_told == first_signals.len(),
                forall|i: int| 0 <= i < first_told ==> signals@[i] == first_signals[i],
                signals@.len() - first_told == first_count - board.cells_unopened,
            decreases 8 - k,
        {
            let ghost prev = *board;
            let ghost prev_queue = queue@;
            let ghost prev_told = signals@;
            match board.neighbor_at(cr, cc, k) {
                Some((nr, nc)) => {
                    let cell = board.cell(nr, nc);
                    proof {
                        assert(cell == before.at(nr as int, nc as int) || (fillable(before.at(nr as int, nc as int))
                            && cell == (Cell { opened: true, ..before.at(nr as int, nc as int) })));
                    }
                    if !(cell.opened || cell.mine || cell.flagged) {
                        if cell.value == 0 {
                            queue.push((nr, nc));
                            proof {
                                assert(queue@[prev_queue.len() as int] == (nr, nc));
                            }
                        }
                        board.uncover(nr, nc, signals);
                        proof {
                            before.lemma_chain_extends(seed, here, k as int);
                            assert(before.reached(seed, nr as int, nc as int));
                            assert forall|r: int, c: int|
                                board.has(r, c) && (#[trigger] board.at(r, c)).opened && !before.at(r, c).opened
                                    && (r, c) != seed implies before.reached(seed, r, c) by {
                                if !(r == nr && c == nc) {
                                    assert(board.at(r, c) == prev.at(r, c));
                                }
                            }
                            assert forall|i: int| 0 <= i < queue.len() implies before.spreads(
                                seed,
                                (#[trigger] queue[i]).0 as int,
                                queue[i].1 as int,
                            ) by {
                                if i < prev_queue.len() {
                                    assert(queue@[i] == prev_queue[i]);
                                }
                            }
                            assert forall|r: int, c: int| queued(prev_queue, r, c) implies queued(queue@, r, c) by {
                                let i = choose|i: int|
                                    0 <= i < prev_queue.len() && (#[trigger] prev_queue[i]).0 == r
                                        && prev_queue[i].1 == c;
                                assert(queue@[i] == prev_queue[i]);
                            }
                            assert forall|i: int| 0 <= i < queue.len() implies board.has(
                                (#[trigger] queue[i]).0 as int,
                                queue[i].1 as int,
                            ) by {
                                if i < prev_queue.len() {
                                    assert(queue@[i] == prev_queue[i]);
                                }
                            }
                            board.lemma_open_keeps_only_opened(&prev, &before, nr as int, nc as int);
                            board.lemma_open_keeps_told(&prev, &before, nr as int, nc as int, prev_told);
                            board.lemma_open_keeps_settled(
                                &prev,
                                &before,
                                nr as int,
                                nc as int,
                                queue@,
                                prev_queue,
                                seed,
                                here,
                            );
                            board.lemma_open_keeps_done(
                                &prev,
                                &before,
                                nr as int,
                                nc as int,
                                cr as int,
                                cc as int,
                                k as int,
                            );
                        }
                    }
                },
                None => {},
            }
            proof {
                assert(board.ok_at(&before, cr as int, cc as int, k as int));
            }
            k += 1;
        }
        proof {
            assert forall|r: int, c: int|
                board.has(r, c) && #[trigger] board.expandable(&before, seed, r, c) && (r, c)
                    != nowhere implies queued(queue@, r, c) || board.done_around(&before, r, c, 8) by {
                if (r, c) != here {
                }
            }
        }
    }
    proof {
        assert forall|r: int, c: int|
            board.has(r, c) && #[trigger] board.expandable(&before, seed, r, c) implies board.done_around(
            &before,
            r,
            c,
            8,
        ) by {
            assert(!queued(queue@, r, c));
        }
    }
}

/// Opens the region around the square at `(row, col)` and ends the game as
/// won where nothing is left to open. The command is turned down, and the
/// board left as it is, where the mines are not laid yet, the game is over, or
/// the grid has no such square.
pub fn clear_open_cells(board: &mut Board, row: usize, col: usize) -> (res: Result<Vec<Signal>, BoardError>)
    requires
        old(board).wf(),
    ensures
        final(board).wf(),
        res is Ok <==> playable(old(board), row, col),
        res is Err ==> *final(board) == *old(board) && res == Err::<Vec<Signal>, BoardError>(
            BoardError::PreconditionViolation,
        ),
        res is Ok ==> region_opened(old(board), final(board), (row as int, col as int), res.unwrap()@),
{
    if !board.initialized || board.game_over || row >= board.height || col >= board.width {
        return Err(BoardError::PreconditionViolation);
    }
    let ghost before = *board;
    let mut signals: Vec<Signal> = Vec::new();
    flood(board, row, col, &mut signals, Ghost(before));
    let ghost opened = *board;
    let ghost reveals = signals@;
    check_cleared(board, &mut signals);
    proof {
        board.lemma_same_cells(&opened);
        board.lemma_told_same_cells(&opened, &before, reveals);
        board.lemma_region_same_cells(&opened, &before, (row as int, col as int));
        if board.cells_unopened == 0 {
            assert(signals@.drop_last() =~= reveals);
        }
    }
    Ok(signals)
}

/// What opening the region around `seed` makes of `before`: squares without
/// a mine are opened and accounted for, the region is complete, and nothing
/// outside it is opened.
pub open spec fn region_opened(before: &Board, after: &Board, seed: (int, int), signals: Seq<Signal>) -> bool {
    &&& accounted(before, after, signals)
    &&& after.closed_under_fill(before, seed)
    &&& after.within_reach(before, seed)
}

/// What opening squares without a mine makes of `before`: only squares there
/// to take in are opened, the counter falls by the number of squares opened,
/// the signals tell of each of them once, and, where nothing is left to open,
/// the game ends as won and the last signal says so.
pub open spec fn accounted(before: &Board, after: &Board, signals: Seq<Signal>) -> bool {
    let cleared = after.cells_unopened == 0;
    let reveals = if cleared { signals.drop_last() } else { signals };
    &&& after.only_opened(before)
    &&& after.game_over == cleared
    &&& cleared ==> signals.len() > 0 && signals.last() == Signal::BoardCleared
    &&& after.told(before, reveals)
    &&& reveals.len() == before.cells_unopened - after.cells_unopened
}

} // verus!

//! The two shortcuts on an open square: chording, which opens the region
//! around it once its mines are flagged, and completing the flags once only
//! mines are left closed around it.

use vstd::prelude::*;
use crate::cell::{Cell, adjacency, neighbor, lemma_steps_are_adjacency, step_between};
use crate::board::{Board, BoardError, Signal, is_closed, is_flagged_mine};
use crate::flood::{check_cleared, flood, playable, region_opened};
use crate::tally::count_around;

verus! {

/// The open square at `(r, c)` holds no mine: the shortcuts apply to it.
pub open spec fn solvable(board: &Board, row: usize, col: usize) -> bool {
    &&& playable(board, row, col)
    &&& board.at(row as int, col as int).opened
    &&& !board.at(row as int, col as int).mine
}

/// As many closed neighbours of `(r, c)` are flagged mines as its value tells.
pub open spec fn chord_ready(board: &Board, r: int, c: int) -> bool {
    count_around(board.grid(), is_flagged_mine(), r, c, 8) == board.at(r, c).value
}

/// As many neighbours of `(r, c)` are closed as its value tells: each of them
/// holds a mine.
pub open spec fn flag_ready(board: &Board, r: int, c: int) -> bool {
    count_around(board.grid(), is_closed(), r, c, 8) == board.at(r, c).value
}

/// The square at `(i, j)` once the closed squares among the first `k`
/// neighbours of `(r, c)` are flagged.
pub open spec fn flagged_upto(board: &Board, r: int, c: int, k: int, i: int, j: int) -> Cell {
    let x = board.at(i, j);
    if adjacency((r, c), (i, j)) && step_between((r, c), (i, j)) < k && !x.opened {
        Cell { flagged: true, ..x }
    } else {
        x
    }
}

/// The signals for the flags set among the first `k` neighbours of `(r, c)`,
/// in the order of the steps.
pub open spec fn flag_signals(board: &Board, r: int, c: int, k: int) -> Seq<Signal>
    decreases k,
{
    if k <= 0 {
        Seq::empty()
    } else {
        let n = neighbor(r, c, k - 1);
        let rest = flag_signals(board, r, c, k - 1);
        if board.has(n.0, n.1) && !board.at(n.0, n.1).opened && !board.at(n.0, n.1).flagged {
            rest.push(Signal::FlagChanged { row: n.0 as usize, col: n.1 as usize, flagged: true })
        } else {
            rest
        }
    }
}

/// What completing the flags around `(r, c)` makes of `before`: every closed
/// neighbour is flagged, nothing else changes, and one signal tells of each
/// flag that was set.
pub open spec fn flags_completed(before: &Board, after: &Board, r: int, c: int, signals: Seq<Signal>) -> bool {
    &&& after.same_state(before)
    &&& forall|i: int, j: int|
        before.has(i, j) ==> #[trigger] after.at(i, j) == if adjacency((r, c), (i, j)) && !before.at(
            i,
            j,
        ).opened {
            Cell { flagged: true, ..before.at(i, j) }
        } else {
            before.at(i, j)
        }
    &&& signals == flag_signals(before, r, c, 8)
}

/// How many closed neighbours of `(row, col)` are flagged mines.
fn count_flagged_mines_around(board: &Board, row: usize, col: usize) -> (n: u8)
    requires
        board.shaped(),
    ensures
        n == count_around(board.grid(), is_flagged_mine(), row as int, col as int, 8),
{
    let mut n: u8 = 0;
    let mut k: usize = 0;
    while k < 8
        invariant
            board.shaped(),
            k <= 8,
            n <= k,
            n == count_around(board.grid(), is_flagged_mine(), row as int, col as int, k as int),
        decreases 8 - k,
    {
        proof {
            board.lemma_grid();
        }
        match board.neighbor_at(row, col, k) {
            Some((r, c)) => {
                let cell = board.cell(r, c);
                if !cell.opened && cell.mine && cell.flagged {
                    n += 1;
                }
            },
            None => {},
        }
        k += 1;
    }
    n
}

/// How many neighbours of `(row, col)` are closed.
fn count_closed_around(board: &Board, row: usize, col: usize) -> (n: u8)
    requires
        board.shaped(),
    ensures
        n == count_around(board.grid(), is_closed(), row as int, col as int, 8),
{
    let mut n: u8 = 0;
    let mut k: usize = 0;
    while k < 8
        invariant
            board.shaped(),
            k <= 8,
            n <= k,
            n == count_around(board.grid(), is_closed(), row as int, col as int, k as int),
        decreases 8 - k,
    {
        proof {
            board.lemma_grid();
        }
        match board.neighbor_at(row, col, k) {
            Some((r, c)) => {
                let cell = board.cell(r, c);
                if !cell.opened {
                    n += 1;
                }
            },
            None => {},
        }
        k += 1;
    }
    n
}

/// Chords on the open square at `(row, col)`: where as many of its closed
/// neighbours are flagged mines as its value tells, the region around it is
/// opened; otherwise nothing happens. The command is turned down, and the
/// board left as it is, where the mines are not laid yet, the game is over,
/// the grid has no such square, or the square is closed or holds a mine.
pub fn chord_solved_cell(board: &mut Board, row: usize, col: usize) -> (res: Result<Vec<Signal>, BoardError>)
    requires
        old(board).wf(),
    ensures
        final(board).wf(),
        res is Ok <==> solvable(old(board), row, col),
        res is Err ==> *final(board) == *old(board) && res == Err::<Vec<Signal>, BoardError>(
            BoardError::PreconditionViolation,
        ),
        res is Ok && chord_ready(old(board), row as int, col as int) ==> region_opened(
            old(board),
            final(board),
            (row as int, col as int),
            res.unwrap()@,
        ),
        res is Ok && !chord_ready(old(board), row as int, col as int) ==> *final(board) == *old(board)
            && res.unwrap()@.len() == 0,
{
    if !board.initialized || board.game_over || row >= board.height || col >= board.width {
        return Err(BoardError::PreconditionViolation);
    }
    let cell = board.cell(row, col);
    if !cell.opened || cell.mine {
        return Err(BoardError::PreconditionViolation);
    }
    let mut signals: Vec<Signal> = Vec::new();
    let flagged = count_flagged_mines_around(board, row, col);
    if flagged == cell.value {
        let ghost before = *board;
        flood(board, row, col, &mut signals, Ghost(before));
        let ghost opened = *board;
        let ghost reveals = signals@;
        check_cleared(board, &mut signals);
        proof {
            board.lemma_same_cells(&opened);
            board.lemma_told_same_cells(&opened, &before, reveals);
            board.lemma_region_same_cells(&opened, &before, (row as int, col as int));
            if board.cells_unopened == 0 {
                assert(signals@.drop_last() =~= reveals);
            }
        }
    }
    Ok(signals)
}

/// Completes the flags around the open square at `(row, col)`: where as many
/// of its neighbours are closed as its value tells, each of them is flagged;
/// otherwise nothing happens. The command is turned down, and the board left
/// as it is, where the mines are not laid yet, the game is over, the grid has
/// no such square, or the square is closed or holds a mine.
pub fn flag_solved_cell(board: &mut Board, row: usize, col: usize) -> (res: Result<Vec<Signal>, BoardError>)
    requires
        old(board).wf(),
    ensures
        final(board).wf(),
        res is Ok <==> solvable(old(board), row, col),
        res is Err ==> *final(board) == *old(board) && res == Err::<Vec<Signal>, BoardError>(
            BoardError::PreconditionViolation,
        ),
        res is Ok && flag_ready(old(board), row as int, col as int) ==> flags_completed(
            old(board),
            final(board),
            row as int,
            col as int,
            res.unwrap()@,
        ),
        res is Ok && !flag_ready(old(board), row as int, col as int) ==> *final(board) == *old(board)
            && res.unwrap()@.len() == 0,
{
    if !board.initialized || board.game_over || row >= board.height || col >= board.width {
        return Err(BoardError::PreconditionViolation);
    }
    let cell = board.cell(row, col);
    if !cell.opened || cell.mine {
        return Err(BoardError::PreconditionViolation);
    }
    let mut signals: Vec<Signal> = Vec::new();
    let closed = count_closed_around(board, row, col);
    if closed != cell.value {
        return Ok(signals);
    }
    let ghost before = *board;
    let ghost here = (row as int, col as int);
    let mut k: usize = 0;
    while k < 8
        invariant
            k <= 8,
            here == (row as int, col as int),
            board.wf(),
            before.shaped(),
            board.same_state(&before),
            forall|i: int, j: int|
                before.has(i, j) ==> #[trigger] board.at(i, j) == flagged_upto(
                    &before,
                    row as int,
                    col as int,
                    k as int,
                    i,
                    j,
                ),
            signals@ == flag_signals(&before, row as int, col as int, k as int),
        decreases 8 - k,
    {
        let ghost prev = *board;
        proof {
            let n = neighbor(row as int, col as int, k as int);
            lemma_steps_are_adjacency(here, n);
            assert(step_between(here, n) == k);
        }
        match board.neighbor_at(row, col, k) {
            Some((r, c)) => {
                let near = board.cell(r, c);
                if !near.opened && !near.flagged {
                    board.set_flag(r, c, true);
                    signals.push(Signal::FlagChanged { row: r, col: c, flagged: true });
                }
            },
            None => {},
        }
        proof {
            let n = neighbor(row as int, col as int, k as int);
            assert forall|i: int, j: int| before.has(i, j) implies #[trigger] board.at(i, j) == flagged_upto(
                &before,
                row as int,
                col as int,
                k + 1,
                i,
                j,
            ) by {
                lemma_steps_are_adjacency(here, (i, j));
                assert(prev.at(i, j) == flagged_upto(&before, row as int, col as int, k as int, i, j));
            }
        }
        k += 1;
    }
    proof {
        assert forall|i: int, j: int| before.has(i, j) implies #[trigger] board.at(i, j) == if adjacency(
            here,
            (i, j),
        ) && !before.at(i, j).opened {
            Cell { flagged: true, ..before.at(i, j) }
        } else {
            before.at(i, j)
        } by {
            lemma_steps_are_adjacency(here, (i, j));
            assert(board.at(i, j) == flagged_upto(&before, row as int, col as int, 8, i, j));
        }
    }
    Ok(signals)
}

} // verus!

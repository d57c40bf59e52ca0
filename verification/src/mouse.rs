//! The two commands of a player: revealing a square and flagging it.

use vstd::prelude::*;
use crate::cell::Cell;
use crate::board::{Board, BoardError, Outcome, Signal, spot};
use crate::flood::{accounted, check_cleared, finish, flood, region_opened, signal_of};
use crate::solve::{chord_ready, chord_solved_cell, flag_ready, flag_solved_cell, flags_completed};

verus! {

/// What revealing the square at `(row, col)` makes of `before`, a board whose
/// mines are laid. On an open square it is a chord. A mine is opened and ends
/// the game as lost. Any other square is opened, and the region around it too
/// where its value is zero.
pub open spec fn revealed(before: &Board, after: &Board, row: int, col: int, signals: Seq<Signal>) -> bool {
    let target = before.at(row, col);
    if target.opened {
        if chord_ready(before, row, col) {
            region_opened(before, after, (row, col), signals)
        } else {
            *after == *before && signals.len() == 0
        }
    } else if target.mine {
        &&& after.opened_one(before, row, col)
        &&& after.game_over
        &&& after.initialized
        &&& after.mines == before.mines
        &&& after.cells_unopened == before.cells_unopened
        &&& signals == seq![signal_of(target), Signal::MineTriggered]
    } else {
        &&& accounted(before, after, signals)
        &&& after.at(row, col).opened
        &&& signals.len() > 0
        &&& signals[0] == signal_of(target)
        &&& if target.value == 0 {
            after.closed_under_fill(before, (row, col)) && after.within_reach(before, (row, col))
        } else {
            after.opened_one(before, row, col)
        }
    }
}

/// The square at `(row, col)` can be revealed: the game goes on, the grid has
/// the square, it bears no flag and is no opened mine.
pub open spec fn revealable(board: &Board, row: usize, col: usize) -> bool {
    let target = board.at(row as int, col as int);
    &&& board.has(row as int, col as int)
    &&& !board.game_over
    &&& !target.flagged
    &&& !(target.opened && target.mine)
}

/// What flagging or unflagging the closed square at `(row, col)` makes of
/// `before`: the flag is turned over, nothing else changes, and one signal
/// tells of the new flag.
pub open spec fn flag_toggled(before: &Board, after: &Board, row: usize, col: usize, signals: Seq<Signal>) -> bool {
    let target = before.at(row as int, col as int);
    &&& after.same_state(before)
    &&& after.at(row as int, col as int) == (Cell { flagged: !target.flagged, ..target })
    &&& forall|i: int, j: int|
        before.has(i, j) && !(i == row && j == col) ==> #[trigger] after.at(i, j) == before.at(i, j)
    &&& signals == seq![Signal::FlagChanged { row, col, flagged: !target.flagged }]
}

/// How the game ended, as far as `signals` tells: lost where a mine went off,
/// else won where the board was cleared.
pub open spec fn outcome_of(signals: Seq<Signal>) -> Option<Outcome> {
    if signals.contains(Signal::MineTriggered) {
        Some(Outcome::Lost)
    } else if signals.contains(Signal::BoardCleared) {
        Some(Outcome::Won)
    } else {
        None
    }
}

/// Reveals the square at `(row, col)` of a board whose mines are laid. The
/// command is turned down, and the board left as it is, where the mines are
/// not laid yet, the game is over, the grid has no such square, or the square
/// bears a flag or is an opened mine.
pub fn reveal_cell(board: &mut Board, row: usize, col: usize) -> (res: Result<Vec<Signal>, BoardError>)
    requires
        old(board).wf(),
    ensures
        final(board).wf(),
        res is Ok <==> old(board).initialized && revealable(old(board), row, col),
        res is Err ==> *final(board) == *old(board) && res == Err::<Vec<Signal>, BoardError>(
            BoardError::PreconditionViolation,
        ),
        res is Ok ==> revealed(old(board), final(board), row as int, col as int, res.unwrap()@),
{
    if !board.initialized || board.game_over || row >= board.height || col >= board.width {
        return Err(BoardError::PreconditionViolation);
    }
    let cell = board.cell(row, col);
    if cell.flagged {
        return Err(BoardError::PreconditionViolation);
    }
    if cell.opened {
        return chord_solved_cell(board, row, col);
    }
    let ghost before = *board;
    let mut signals: Vec<Signal> = Vec::new();
    board.uncover(row, col, &mut signals);
    if cell.mine {
        signals.push(Signal::MineTriggered);
        let ghost opened = *board;
        finish(board);
        proof {
            board.lemma_same_cells(&opened);
            assert(signals@ =~= seq![signal_of(cell), Signal::MineTriggered]);
        }
        return Ok(signals);
    }
    let ghost first = *board;
    proof {
        assert(before.only_opened(&before));
        assert(before.told(&before, Seq::<Signal>::empty()));
        board.lemma_open_keeps_only_opened(&before, &before, row as int, col as int);
        board.lemma_open_keeps_told(&before, &before, row as int, col as int, Seq::<Signal>::empty());
    }
    if cell.value == 0 {
        flood(board, row, col, &mut signals, Ghost(before));
        proof {
            assert(first.at(row as int, col as int).opened);
            assert(board.at(row as int, col as int) == first.at(row as int, col as int) || board.at(
                row as int,
                col as int,
            ) == (Cell { opened: true, ..first.at(row as int, col as int) })) by {
                assert(board.at(row as int, col as int) == before.at(row as int, col as int) || board.at(
                    row as int,
                    col as int,
                ) == (Cell { opened: true, ..before.at(row as int, col as int) }));
            }
        }
    }
    let ghost opened = *board;
    let ghost reveals = signals@;
    check_cleared(board, &mut signals);
    proof {
        board.lemma_same_cells(&opened);
        board.lemma_told_same_cells(&opened, &before, reveals);
        if board.cells_unopened == 0 {
            assert(signals@.drop_last() =~= reveals);
        }
        if cell.value == 0 {
            board.lemma_region_same_cells(&opened, &before, (row as int, col as int));
        } else {
            board.lemma_only_opened_same_cells(&opened, &before);
        }
    }
    Ok(signals)
}

/// Reveals the square at `(row, col)`, after laying the mines away from it if
/// this is the first reveal. The command is turned down, and the board left as
/// it is, where the game is over, the grid has no such square, the square
/// bears a flag or is an opened mine, or the mines cannot be laid.
pub fn left_click(board: &mut Board, row: usize, col: usize) -> (res: Result<Vec<Signal>, BoardError>)
    requires
        old(board).wf(),
    ensures
        final(board).wf(),
        res is Err ==> *final(board) == *old(board),
        res is Ok <==> revealable(old(board), row, col) && (old(board).initialized || old(board).mines
            <= old(board).free_total(spot((row, col)))),
        res == Err::<Vec<Signal>, BoardError>(BoardError::PreconditionViolation) <==> !revealable(
            old(board),
            row,
            col,
        ),
        res == Err::<Vec<Signal>, BoardError>(BoardError::ConfigurationError) <==> revealable(
            old(board),
            row,
            col,
        ) && !old(board).initialized && old(board).mines > old(board).free_total(spot((row, col))),
        res is Ok && old(board).initialized ==> revealed(
            old(board),
            final(board),
            row as int,
            col as int,
            res.unwrap()@,
        ),
        res is Ok && !old(board).initialized ==> exists|laid: Board|
            laid.wf() && #[trigger] laid.filled_from(old(board), old(board).mines, spot((row, col)))
                && revealed(&laid, final(board), row as int, col as int, res.unwrap()@),
{
    if board.game_over || row >= board.height || col >= board.width {
        return Err(BoardError::PreconditionViolation);
    }
    let cell = board.cell(row, col);
    if cell.flagged || (cell.opened && cell.mine) {
        return Err(BoardError::PreconditionViolation);
    }
    if !board.initialized {
        let mines = board.mines;
        match board.fill_board(mines, (row, col)) {
            Err(e) => {
                return Err(e);
            },
            Ok(()) => {},
        }
    }
    let ghost laid = *board;
    proof {
        assert(laid.at(row as int, col as int).flagged == cell.flagged);
        assert(!(laid.at(row as int, col as int).opened && laid.at(row as int, col as int).mine));
    }
    let res = reveal_cell(board, row, col);
    proof {
        if !old(board).initialized {
            assert(laid.filled_from(old(board), old(board).mines, spot((row, col))));
        }
    }
    res
}

/// Flags or unflags the closed square at `(row, col)`; on an open square,
/// completes the flags around it. The command is turned down, and the board
/// left as it is, where the game is over, the grid has no such square, or the
/// square is an opened mine.
pub fn right_click(board: &mut Board, row: usize, col: usize) -> (res: Result<Vec<Signal>, BoardError>)
    requires
        old(board).wf(),
    ensures
        final(board).wf(),
        res is Ok <==> old(board).has(row as int, col as int) && !old(board).game_over && !(old(board).at(
            row as int,
            col as int,
        ).opened && old(board).at(row as int, col as int).mine),
        res is Err ==> *final(board) == *old(board) && res == Err::<Vec<Signal>, BoardError>(
            BoardError::PreconditionViolation,
        ),
        res is Ok && !old(board).at(row as int, col as int).opened ==> flag_toggled(
            old(board),
            final(board),
            row,
            col,
            res.unwrap()@,
        ),
        res is Ok && old(board).at(row as int, col as int).opened && flag_ready(
            old(board),
            row as int,
            col as int,
        ) ==> flags_completed(old(board), final(board), row as int, col as int, res.unwrap()@),
        res is Ok && old(board).at(row as int, col as int).opened && !flag_ready(
            old(board),
            row as int,
            col as int,
        ) ==> *final(board) == *old(board) && res.unwrap()@.len() == 0,
{
    if board.game_over || row >= board.height || col >= board.width {
        return Err(BoardError::PreconditionViolation);
    }
    let cell = board.cell(row, col);
    if cell.opened {
        return flag_solved_cell(board, row, col);
    }
    board.set_flag(row, col, !cell.flagged);
    let mut signals: Vec<Signal> = Vec::new();
    signals.push(Signal::FlagChanged { row, col, flagged: !cell.flagged });
    proof {
        assert(signals@ =~= seq![Signal::FlagChanged { row, col, flagged: !cell.flagged }]);
    }
    Ok(signals)
}

/// Tells from the signals of a command how the game ended, if it did, and
/// marks the board as over in that case.
pub fn game_over(board: &mut Board, signals: &Vec<Signal>) -> (outcome: Option<Outcome>)
    requires
        old(board).wf(),
    ensures
        final(board).wf(),
        outcome == outcome_of(signals@),
        final(board).game_over == (old(board).game_over || outcome is Some),
        final(board).cells == old(board).cells,
        final(board).height == old(board).height,
        final(board).width == old(board).width,
        final(board).mines == old(board).mines,
        final(board).initialized == old(board).initialized,
        final(board).cells_unopened == old(board).cells_unopened,
{
    let mut lost = false;
    let mut won = false;
    let mut i: usize = 0;
    while i < signals.len()
        invariant
            i <= signals.len(),
            lost == signals@.subrange(0, i as int).contains(Signal::MineTriggered),
            won == signals@.subrange(0, i as int).contains(Signal::BoardCleared),
        decreases signals.len() - i,
    {
        let ghost seen = signals@.subrange(0, i as int);
        let ghost next = signals@.subrange(0, i + 1);
        proof {
            assert(next =~= seen.push(signals@[i as int]));
            assert(next[i as int] == signals@[i as int]);
            assert forall|s: Signal| seen.contains(s) implies next.contains(s) by {
                let j = choose|j: int| 0 <= j < seen.len() && seen[j] == s;
                assert(next[j] == s);
            }
        }
        match signals[i] {
            Signal::MineTriggered => {
                lost = true;
            },
            Signal::BoardCleared => {
                won = true;
            },
            _ => {},
        }
        i += 1;
    }
    proof {
        assert(signals@.subrange(0, i as int) =~= signals@);
    }
    if lost {
        finish(board);
        Some(Outcome::Lost)
    } else if won {
        finish(board);
        Some(Outcome::Won)
    } else {
        None
    }
}

} // verus!

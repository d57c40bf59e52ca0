//! What holds of every game, stated over the boards before and after a
//! command.

use vstd::prelude::*;
use crate::cell::{adjacency, neighbor, lemma_steps_are_adjacency, step_between};
use crate::board::{Board, Signal, is_flagged, is_flagged_mine, is_hidden_safe, is_mine};
use crate::flood::{accounted, fillable};
use crate::solve::chord_ready;
use crate::tally::{
    count_around, hit, lemma_count_around_same, lemma_count_around_within, lemma_count_rows_nonnegative,
    lemma_count_rows_zero,
};

verus! {

/// The mines around `(r, c)` as a set of places: the squares of the grid that
/// touch `(r, c)` and hold a mine.
pub open spec fn mined_neighbors(board: &Board, r: int, c: int) -> Set<(int, int)> {
    Set::new(|p: (int, int)| board.has(p.0, p.1) && adjacency((r, c), p) && board.at(p.0, p.1).mine)
}

/// The mines among the first `k` neighbours of `(r, c)`, as a set of places.
pub open spec fn mined_steps(board: &Board, r: int, c: int, k: int) -> Set<(int, int)> {
    Set::new(
        |p: (int, int)|
            board.has(p.0, p.1) && adjacency((r, c), p) && step_between((r, c), p) < k && board.at(
                p.0,
                p.1,
            ).mine,
    )
}

/// The mines among the first `k` neighbours are finitely many, and as many as
/// the count over the steps tells.
proof fn lemma_mined_steps(board: &Board, r: int, c: int, k: int)
    requires
        board.shaped(),
        0 <= k <= 8,
    ensures
        mined_steps(board, r, c, k).finite(),
        mined_steps(board, r, c, k).len() == count_around(board.grid(), is_mine(), r, c, k),
    decreases k,
{
    board.lemma_grid();
    if k == 0 {
        assert(mined_steps(board, r, c, 0) =~= Set::<(int, int)>::empty());
    } else {
        lemma_mined_steps(board, r, c, k - 1);
        let n = neighbor(r, c, k - 1);
        lemma_steps_are_adjacency((r, c), n);
        assert(step_between((r, c), n) == k - 1);
        let fewer = mined_steps(board, r, c, k - 1);
        if hit(board.grid(), is_mine(), r, c, k - 1) {
            assert(mined_steps(board, r, c, k) =~= fewer.insert(n)) by {
                assert forall|p: (int, int)| mined_steps(board, r, c, k).contains(p) <==> fewer.insert(
                    n,
                ).contains(p) by {
                    lemma_steps_are_adjacency((r, c), p);
                }
            }
            assert(!fewer.contains(n));
        } else {
            assert(mined_steps(board, r, c, k) =~= fewer) by {
                assert forall|p: (int, int)| mined_steps(board, r, c, k).contains(p) <==> fewer.contains(
                    p,
                ) by {
                    lemma_steps_are_adjacency((r, c), p);
                }
            }
        }
    }
}

/// The number of mines around a square, as the board's values have it, is the
/// number of squares of the grid that touch it and hold a mine.
pub proof fn law_value_counts_mined_neighbors(board: &Board, r: int, c: int)
    requires
        board.wf(),
        board.initialized,
        board.has(r, c),
    ensures
        mined_neighbors(board, r, c).finite(),
        board.at(r, c).value == mined_neighbors(board, r, c).len(),
{
    lemma_mined_steps(board, r, c, 8);
    assert(mined_neighbors(board, r, c) =~= mined_steps(board, r, c, 8)) by {
        assert forall|p: (int, int)| mined_neighbors(board, r, c).contains(p) <==> mined_steps(
            board,
            r,
            c,
            8,
        ).contains(p) by {
            lemma_steps_are_adjacency((r, c), p);
        }
    }
}

/// A complete region holds every square that a chain leads to: a chain that
/// starts at the square the region was opened around and goes over squares
/// that were closed, unflagged and of value zero, to a last square that was
/// closed and unflagged. And no square with a mine was opened.
pub proof fn law_region_complete(before: &Board, after: &Board, seed: (int, int), path: Seq<(int, int)>)
    requires
        after.only_opened(before),
        after.closed_under_fill(before, seed),
        before.zero_chain(seed, path),
    ensures
        after.at(path.last().0, path.last().1).opened,
        forall|r: int, c: int|
            after.has(r, c) && before.at(r, c).mine ==> #[trigger] after.at(r, c) == before.at(r, c),
{
    after.lemma_fill_reaches(before, seed, path, path.len() - 1);
}

/// A region holds, besides the square it was opened around, exactly the
/// squares that a chain leads to.
pub proof fn law_region_exact(before: &Board, after: &Board, seed: (int, int), r: int, c: int)
    requires
        after.only_opened(before),
        after.closed_under_fill(before, seed),
        after.within_reach(before, seed),
        after.has(r, c),
    ensures
        before.reached(seed, r, c) ==> after.at(r, c).opened && !before.at(r, c).opened,
        (r, c) != seed && after.at(r, c).opened && !before.at(r, c).opened ==> before.reached(seed, r, c),
{
    if before.reached(seed, r, c) {
        let path = choose|path: Seq<(int, int)>| #[trigger]
            before.zero_chain(seed, path) && path.last() == (r, c);
        after.lemma_fill_reaches(before, seed, path, path.len() - 1);
        assert(fillable(before.at(path[path.len() - 1].0, path[path.len() - 1].1)));
    }
}

/// Once the mines are laid, fewer mines lie in the grid than it has squares,
/// and the square of the first reveal is still to open.
pub proof fn law_fill_leaves_room(before: &Board, after: &Board, mines: u16, start: (int, int))
    requires
        before.wf(),
        !before.initialized,
        before.has(start.0, start.1),
        after.wf(),
        after.filled_from(before, mines, start),
    ensures
        mines < after.height * after.width,
        after.cells_unopened > 0,
{
    after.lemma_grid();
    let grid = after.grid();
    lemma_count_rows_zero(grid, is_hidden_safe(), after.height as int);
    lemma_count_rows_nonnegative(grid, is_hidden_safe(), after.height as int);
    assert(after.at(start.0, start.1) == grid[start.0][start.1]);
    assert(!before.at(start.0, start.1).opened);
    assert(is_hidden_safe()(grid[start.0][start.1]));
}

/// The counter of squares to open is zero exactly when every square without a
/// mine is open.
pub proof fn law_win_detection(board: &Board)
    requires
        board.wf(),
    ensures
        board.cells_unopened == 0 <==> forall|r: int, c: int|
            board.has(r, c) && !(#[trigger] board.at(r, c)).mine ==> board.at(r, c).opened,
{
    board.lemma_grid();
    let grid = board.grid();
    lemma_count_rows_zero(grid, is_hidden_safe(), board.height as int);
    let none_hidden = forall|i: int, j: int|
        0 <= i < board.height && 0 <= j < grid[i].len() ==> !is_hidden_safe()(#[trigger] grid[i][j]);
    let all_open = forall|r: int, c: int|
        board.has(r, c) && !(#[trigger] board.at(r, c)).mine ==> board.at(r, c).opened;
    if none_hidden {
        assert forall|r: int, c: int| board.has(r, c) && !(#[trigger] board.at(r, c)).mine implies board.at(
            r,
            c,
        ).opened by {
            assert(!is_hidden_safe()(grid[r][c]));
        }
    }
    if all_open {
        assert forall|i: int, j: int| 0 <= i < board.height && 0 <= j < grid[i].len() implies !is_hidden_safe()(
            #[trigger] grid[i][j],
        ) by {
            assert(board.has(i, j));
            assert(!board.at(i, j).mine ==> board.at(i, j).opened);
        }
    }
}

/// A command that opens squares tells that the board is cleared exactly when
/// it leaves nothing to open, tells it once and last, and ends the game with
/// it.
pub proof fn law_cleared_once(before: &Board, after: &Board, signals: Seq<Signal>)
    requires
        accounted(before, after, signals),
    ensures
        signals.contains(Signal::BoardCleared) <==> after.cells_unopened == 0,
        after.game_over <==> after.cells_unopened == 0,
        forall|i: int|
            0 <= i < signals.len() && #[trigger] signals[i] == Signal::BoardCleared ==> i == signals.len() - 1,
        !signals.contains(Signal::MineTriggered),
{
    let cleared = after.cells_unopened == 0;
    let reveals = if cleared {
        signals.drop_last()
    } else {
        signals
    };
    assert forall|i: int| 0 <= i < reveals.len() implies (#[trigger] signals[i]) != Signal::BoardCleared
        && signals[i] != Signal::MineTriggered by {
        assert(after.reports_opening(before, reveals[i]));
    }
    if cleared {
        assert(signals[signals.len() - 1] == Signal::BoardCleared);
    }
    if signals.contains(Signal::BoardCleared) {
        let i = choose|i: int| 0 <= i < signals.len() && signals[i] == Signal::BoardCleared;
        assert(signals[i] == Signal::BoardCleared);
    }
    if signals.contains(Signal::MineTriggered) {
        let i = choose|i: int| 0 <= i < signals.len() && signals[i] == Signal::MineTriggered;
        assert(signals[i] == Signal::MineTriggered);
    }
}

/// Where every flag around an open square stands on a mine, a chord on the
/// square opens the region around it exactly when as many of its closed
/// neighbours are flagged as its value tells.
pub proof fn law_chord_counts_flags(board: &Board, r: int, c: int)
    requires
        board.wf(),
        board.has(r, c),
        forall|i: int, j: int|
            board.has(i, j) && adjacency((r, c), (i, j)) && !(#[trigger] board.at(i, j)).opened && board.at(
                i,
                j,
            ).flagged ==> board.at(i, j).mine,
    ensures
        chord_ready(board, r, c) <==> count_around(board.grid(), is_flagged(), r, c, 8) == board.at(
            r,
            c,
        ).value,
{
    board.lemma_grid();
    let grid = board.grid();
    assert forall|k: int| 0 <= k < 8 implies #[trigger] hit(grid, is_flagged_mine(), r, c, k) == hit(
        grid,
        is_flagged(),
        r,
        c,
        k,
    ) by {
        let n = neighbor(r, c, k);
        lemma_steps_are_adjacency((r, c), n);
        if board.has(n.0, n.1) {
            assert(board.at(n.0, n.1) == grid[n.0][n.1]);
        }
    }
    lemma_count_around_same(grid, is_flagged_mine(), grid, is_flagged(), r, c, 8);
}

/// A chord that opens the region cannot hit a mine: where as many closed
/// neighbours of a square are flagged mines as its value tells, every mine
/// around the square is closed and flagged.
pub proof fn law_chord_is_safe(board: &Board, r: int, c: int, i: int, j: int)
    requires
        board.wf(),
        board.initialized,
        board.has(r, c),
        chord_ready(board, r, c),
        board.has(i, j),
        adjacency((r, c), (i, j)),
        board.at(i, j).mine,
    ensures
        !board.at(i, j).opened,
        board.at(i, j).flagged,
{
    board.lemma_grid();
    let grid = board.grid();
    lemma_count_around_within(grid, is_flagged_mine(), is_mine(), r, c, 8);
    assert(board.at(r, c).value == board.mines_around(r, c));
    lemma_steps_are_adjacency((r, c), (i, j));
    let k = step_between((r, c), (i, j));
    assert(hit(grid, is_flagged_mine(), r, c, k) == hit(grid, is_mine(), r, c, k));
    assert(board.at(i, j) == grid[i][j]);
}

} // verus!

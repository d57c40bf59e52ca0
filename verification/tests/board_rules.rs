use minefield::board::{generate_board, Board, BoardError, Outcome, Signal};
use minefield::cell::{surround, Cell};
use minefield::flood::clear_open_cells;
use minefield::mouse::{game_over, left_click, reveal_cell, right_click};
use minefield::solve::{chord_solved_cell, flag_solved_cell};

fn touches(a: (usize, usize), b: (usize, usize)) -> bool {
    let dr = if a.0 > b.0 { a.0 - b.0 } else { b.0 - a.0 };
    let dc = if a.1 > b.1 { a.1 - b.1 } else { b.1 - a.1 };
    dr <= 1 && dc <= 1 && a != b
}

fn mines_near(board: &Board, r: usize, c: usize) -> u8 {
    let mut n = 0;
    for i in 0..board.height {
        for j in 0..board.width {
            if touches((r, c), (i, j)) && board.cells[i][j].mine {
                n += 1;
            }
        }
    }
    n
}

/// A board with mines on the given squares, as if they had just been laid.
fn laid_out(height: usize, width: usize, mines: &[(usize, usize)]) -> Board {
    let mut board = generate_board(height, width, mines.len() as u16);
    for &(r, c) in mines {
        board.cells[r][c].mine = true;
    }
    for r in 0..height {
        for c in 0..width {
            board.cells[r][c].value = mines_near(&board, r, c);
        }
    }
    board.initialized = true;
    board.cells_unopened = height * width - mines.len();
    board
}

fn count_where(board: &Board, pick: fn(&Cell) -> bool) -> usize {
    board.cells.iter().flatten().filter(|x| pick(x)).count()
}

fn revealed(board: &Board, r: usize, c: usize) -> Signal {
    let x = board.cells[r][c];
    Signal::CellRevealed { row: r, col: c, is_mine: x.mine, adjacent_mine_count: x.value }
}

#[test]
fn new_board_is_blank() {
    let board = generate_board(3, 5, 4);
    assert_eq!(board.height, 3);
    assert_eq!(board.width, 5);
    assert_eq!(board.mines, 4);
    assert_eq!(board.cells_unopened, 15);
    assert!(!board.initialized);
    assert!(!board.game_over);
    assert_eq!(board.cells.len(), 3);
    for r in 0..3 {
        assert_eq!(board.cells[r].len(), 5);
        for c in 0..5 {
            assert_eq!(
                board.cells[r][c],
                Cell { column: c, flagged: false, mine: false, opened: false, row: r, value: 0 }
            );
        }
    }
}

#[test]
fn empty_board_has_no_cells() {
    let board = generate_board(0, 7, 0);
    assert_eq!(board.cells.len(), 0);
    assert_eq!(board.cells_unopened, 0);
}

#[test]
fn steps_are_the_eight_neighbours() {
    let expected: [(isize, isize); 8] =
        [(-1, -1), (0, -1), (1, -1), (-1, 0), (1, 0), (-1, 1), (0, 1), (1, 1)];
    for k in 0..8 {
        assert_eq!(surround(k), expected[k]);
    }
}

#[test]
fn surrounds_is_the_moore_neighbourhood() {
    let cell = Cell { column: 5, flagged: false, mine: false, opened: false, row: 4, value: 0 };
    for r in 0..10usize {
        for c in 0..10usize {
            assert_eq!(cell.surrounds((r, c)), touches((4, 5), (r, c)), "at {r},{c}");
        }
    }
    assert!(!cell.surrounds((4, 5)));
    assert!(cell.surrounds((3, 4)));
    assert!(cell.surrounds((5, 6)));
    assert!(!cell.surrounds((6, 5)));
    let corner = Cell { column: 0, flagged: false, mine: false, opened: false, row: 0, value: 0 };
    assert!(corner.surrounds((1, 1)));
    assert!(!corner.surrounds((usize::MAX, usize::MAX)));
}

#[test]
fn check_in_bounds_moves_inside_the_grid() {
    let board = generate_board(4, 6, 0);
    assert_eq!(board.check_in_bounds((0, 0), (-1, -1)), None);
    assert_eq!(board.check_in_bounds((0, 0), (-1, 0)), None);
    assert_eq!(board.check_in_bounds((0, 0), (0, -1)), None);
    assert_eq!(board.check_in_bounds((0, 0), (1, 1)), Some((1, 1)));
    assert_eq!(board.check_in_bounds((3, 5), (1, 0)), None);
    assert_eq!(board.check_in_bounds((3, 5), (0, 1)), None);
    assert_eq!(board.check_in_bounds((3, 5), (-1, -1)), Some((2, 4)));
    assert_eq!(board.check_in_bounds((2, 2), (0, 0)), Some((2, 2)));
    assert_eq!(board.check_in_bounds((2, 2), (1, 3)), Some((3, 5)));
    assert_eq!(board.check_in_bounds((2, 2), (2, 0)), None);
    assert_eq!(board.check_in_bounds((7, 2), (-4, 0)), Some((3, 2)));
}

#[test]
fn check_in_bounds_survives_extreme_arguments() {
    let board = generate_board(4, 6, 0);
    assert_eq!(board.check_in_bounds((usize::MAX, usize::MAX), (isize::MAX, isize::MAX)), None);
    assert_eq!(board.check_in_bounds((0, 0), (isize::MIN, isize::MIN)), None);
    assert_eq!(board.check_in_bounds((usize::MAX, 0), (isize::MIN, 0)), None);
    assert_eq!(board.check_in_bounds((0, 0), (isize::MAX, 0)), None);
}

#[test]
fn pick_free_finds_the_ranked_free_square() {
    let mut board = generate_board(4, 4, 3);
    // With the first reveal at (3, 3) the squares (2, 2), (2, 3), (3, 2), (3, 3) take no mine.
    assert_eq!(board.pick_free((3, 3), 0), Some((0, 0)));
    assert_eq!(board.pick_free((3, 3), 1), Some((0, 1)));
    assert_eq!(board.pick_free((3, 3), 9), Some((2, 1)));
    assert_eq!(board.pick_free((3, 3), 10), Some((3, 0)));
    assert_eq!(board.pick_free((3, 3), 11), Some((3, 1)));
    assert_eq!(board.pick_free((3, 3), 12), None);
    assert_eq!(board.pick_free((3, 3), usize::MAX), None);
    // A square with a mine is free no longer: the ranks move up.
    board.cells[0][0].mine = true;
    assert_eq!(board.pick_free((3, 3), 0), Some((0, 1)));
    assert_eq!(board.pick_free((3, 3), 10), Some((3, 1)));
    assert_eq!(board.pick_free((3, 3), 11), None);
    assert_eq!(count_where(&board, |x| x.mine), 1);
}

#[test]
fn pick_free_skips_the_safe_zone_in_the_middle() {
    let board = generate_board(3, 4, 1);
    // Around (1, 1) only the last column is free: (0, 3), (1, 3), (2, 3).
    assert_eq!(board.pick_free((1, 1), 0), Some((0, 3)));
    assert_eq!(board.pick_free((1, 1), 1), Some((1, 3)));
    assert_eq!(board.pick_free((1, 1), 2), Some((2, 3)));
    assert_eq!(board.pick_free((1, 1), 3), None);
    // A start outside the grid keeps no square free of mines.
    assert_eq!(board.pick_free((7, 7), 11), Some((2, 3)));
    assert_eq!(board.pick_free((7, 7), 12), None);
}

#[test]
fn fill_board_lays_exactly_the_mines_asked_for() {
    for &start in &[(0usize, 0usize), (7, 7), (15, 15), (0, 9), (8, 0)] {
        let mut board = generate_board(16, 16, 0);
        assert_eq!(board.fill_board(40, start), Ok(()));
        assert!(board.initialized);
        assert_eq!(board.mines, 40);
        assert_eq!(count_where(&board, |x| x.mine), 40);
        assert_eq!(board.cells_unopened, 16 * 16 - 40);
        assert_eq!(count_where(&board, |x| x.opened), 0);
        for r in 0..16 {
            for c in 0..16 {
                let x = board.cells[r][c];
                assert_eq!((x.row, x.column), (r, c));
                assert_eq!(x.value, mines_near(&board, r, c));
                if (r, c) == start || touches(start, (r, c)) {
                    assert!(!x.mine);
                }
            }
        }
    }
}

#[test]
fn fill_board_fills_every_free_square_at_the_limit() {
    let mut board = generate_board(4, 4, 0);
    assert_eq!(board.fill_board(12, (3, 3)), Ok(()));
    assert_eq!(count_where(&board, |x| x.mine), 12);
    for r in 0..4 {
        for c in 0..4 {
            assert_eq!(board.cells[r][c].mine, !(r >= 2 && c >= 2));
        }
    }
    assert_eq!(board.cells[3][3].value, 0);
    assert_eq!(board.cells[2][2].value, 5);
    assert_eq!(board.cells[2][3].value, 2);
    assert_eq!(board.cells[1][1].value, 7);
    assert_eq!(board.cells_unopened, 4);
}

#[test]
fn fill_board_rejects_too_many_mines() {
    let mut board = generate_board(4, 4, 0);
    assert_eq!(board.fill_board(13, (3, 3)), Err(BoardError::ConfigurationError));
    assert!(!board.initialized);
    assert_eq!(count_where(&board, |x| x.mine), 0);
    assert_eq!(board.cells_unopened, 16);
    assert_eq!(board.fill_board(16, (3, 3)), Err(BoardError::ConfigurationError));
    assert_eq!(board.fill_board(8, (1, 1)), Err(BoardError::ConfigurationError));
    assert_eq!(board.fill_board(7, (1, 1)), Ok(()));
    assert_eq!(count_where(&board, |x| x.mine), 7);
}

#[test]
fn fill_board_rejects_a_start_outside_the_grid() {
    let mut board = generate_board(4, 4, 0);
    assert_eq!(board.fill_board(1, (4, 0)), Err(BoardError::PreconditionViolation));
    assert_eq!(board.fill_board(1, (0, 4)), Err(BoardError::PreconditionViolation));
    assert!(!board.initialized);
}

#[test]
fn fill_board_runs_once() {
    let mut board = generate_board(6, 6, 0);
    assert_eq!(board.fill_board(5, (2, 2)), Ok(()));
    let cells = board.cells.clone();
    assert_eq!(board.fill_board(9, (0, 0)), Ok(()));
    assert_eq!(board.cells, cells);
    assert_eq!(board.mines, 5);
    assert_eq!(board.cells_unopened, 31);
}

#[test]
fn fill_board_keeps_flags() {
    let mut board = generate_board(5, 5, 3);
    assert!(right_click(&mut board, 0, 0).is_ok());
    assert_eq!(board.fill_board(3, (4, 4)), Ok(()));
    assert!(board.cells[0][0].flagged);
    assert_eq!(count_where(&board, |x| x.flagged), 1);
}

#[test]
fn flood_opens_the_quadrant_and_leaves_the_mine() {
    let mut board = laid_out(4, 4, &[(0, 0)]);
    assert_eq!(board.cells[3][3].value, 0);
    let signals = left_click(&mut board, 3, 3).unwrap();
    for &(r, c) in &[(2usize, 2usize), (2, 3), (3, 2), (3, 3)] {
        assert!(board.cells[r][c].opened);
    }
    assert!(!board.cells[0][0].opened);
    assert!(!board.cells[0][0].flagged);
    assert_eq!(count_where(&board, |x| x.opened), 15);
    assert_eq!(board.cells_unopened, 0);
    assert!(board.game_over);
    assert_eq!(signals.len(), 16);
    assert_eq!(signals[0], revealed(&board, 3, 3));
    assert_eq!(signals[15], Signal::BoardCleared);
    for r in 0..4 {
        for c in 0..4 {
            let n = signals.iter().filter(|s| **s == revealed(&board, r, c)).count();
            assert_eq!(n, if (r, c) == (0, 0) { 0 } else { 1 });
        }
    }
}

#[test]
fn flood_stops_at_numbers_and_flags() {
    // A wall of mines in column 2 parts the board; a flag blocks one square.
    let mut board = laid_out(3, 5, &[(0, 2), (1, 2), (2, 2)]);
    assert!(right_click(&mut board, 2, 0).is_ok());
    let signals = left_click(&mut board, 0, 0).unwrap();
    for r in 0..3 {
        assert_eq!(board.cells[r][0].opened, r != 2);
        assert!(board.cells[r][1].opened);
        assert!(!board.cells[r][2].opened);
        assert!(!board.cells[r][3].opened);
        assert!(!board.cells[r][4].opened);
    }
    assert!(board.cells[2][0].flagged);
    assert_eq!(board.cells_unopened, 12 - 5);
    assert!(!board.game_over);
    assert_eq!(signals.len(), 5);
    assert!(!signals.contains(&Signal::BoardCleared));
}

#[test]
fn revealing_a_number_opens_one_square() {
    let mut board = laid_out(3, 3, &[(0, 0)]);
    let signals = left_click(&mut board, 1, 1).unwrap();
    assert_eq!(
        signals,
        vec![Signal::CellRevealed { row: 1, col: 1, is_mine: false, adjacent_mine_count: 1 }]
    );
    assert_eq!(count_where(&board, |x| x.opened), 1);
    assert_eq!(board.cells_unopened, 7);
}

#[test]
fn toggling_a_flag_twice_restores_the_square() {
    let mut board = generate_board(4, 4, 2);
    let first = right_click(&mut board, 1, 2).unwrap();
    assert!(board.cells[1][2].flagged);
    assert_eq!(first, vec![Signal::FlagChanged { row: 1, col: 2, flagged: true }]);
    let second = right_click(&mut board, 1, 2).unwrap();
    assert!(!board.cells[1][2].flagged);
    assert_eq!(second, vec![Signal::FlagChanged { row: 1, col: 2, flagged: false }]);
    assert_eq!(board.cells_unopened, 16);
    assert_eq!(count_where(&board, |x| x.flagged || x.opened || x.mine), 0);
}

#[test]
fn revealing_a_mine_loses_and_freezes_the_board() {
    let mut board = laid_out(4, 4, &[(0, 0), (2, 3)]);
    let signals = left_click(&mut board, 2, 3).unwrap();
    assert_eq!(
        signals,
        vec![
            Signal::CellRevealed { row: 2, col: 3, is_mine: true, adjacent_mine_count: 0 },
            Signal::MineTriggered
        ]
    );
    assert!(board.game_over);
    assert!(board.cells[2][3].opened);
    assert_eq!(board.cells_unopened, 14);
    let cells = board.cells.clone();
    for r in 0..4 {
        for c in 0..4 {
            assert_eq!(left_click(&mut board, r, c), Err(BoardError::PreconditionViolation));
            assert_eq!(right_click(&mut board, r, c), Err(BoardError::PreconditionViolation));
            assert_eq!(reveal_cell(&mut board, r, c), Err(BoardError::PreconditionViolation));
            assert_eq!(chord_solved_cell(&mut board, r, c), Err(BoardError::PreconditionViolation));
            assert_eq!(flag_solved_cell(&mut board, r, c), Err(BoardError::PreconditionViolation));
            assert_eq!(clear_open_cells(&mut board, r, c), Err(BoardError::PreconditionViolation));
        }
    }
    assert_eq!(board.cells, cells);
    assert_eq!(board.cells_unopened, 14);
}

#[test]
fn first_click_lays_the_mines_away_from_it() {
    let mut board = generate_board(16, 16, 40);
    let signals = left_click(&mut board, 5, 9).unwrap();
    assert!(board.initialized);
    assert_eq!(count_where(&board, |x| x.mine), 40);
    assert_eq!(board.cells[5][9].value, 0);
    assert!(board.cells[5][9].opened);
    for r in 4..7 {
        for c in 8..11 {
            assert!(!board.cells[r][c].mine);
            assert!(board.cells[r][c].opened);
        }
    }
    assert_eq!(signals[0], revealed(&board, 5, 9));
    assert_eq!(count_where(&board, |x| x.opened && x.mine), 0);
    let opened = count_where(&board, |x| x.opened);
    assert_eq!(board.cells_unopened, 216 - opened);
    let told = signals.iter().filter(|s| matches!(s, Signal::CellRevealed { .. })).count();
    assert_eq!(told, opened);
}

#[test]
fn first_click_with_too_many_mines_starts_nothing() {
    let mut board = generate_board(4, 4, 13);
    assert_eq!(left_click(&mut board, 3, 3), Err(BoardError::ConfigurationError));
    assert!(!board.initialized);
    assert!(!board.game_over);
    assert_eq!(count_where(&board, |x| x.mine || x.opened), 0);
    let mut full = generate_board(4, 4, 16);
    assert_eq!(left_click(&mut full, 0, 0), Err(BoardError::ConfigurationError));
}

#[test]
fn clicks_outside_the_grid_are_rejected() {
    let mut board = generate_board(4, 4, 2);
    assert_eq!(left_click(&mut board, 4, 0), Err(BoardError::PreconditionViolation));
    assert_eq!(left_click(&mut board, 0, 4), Err(BoardError::PreconditionViolation));
    assert_eq!(right_click(&mut board, 9, 9), Err(BoardError::PreconditionViolation));
    assert!(!board.initialized);
    let mut laid = laid_out(4, 4, &[(0, 0)]);
    assert_eq!(reveal_cell(&mut laid, 4, 4), Err(BoardError::PreconditionViolation));
    assert_eq!(clear_open_cells(&mut laid, 0, 4), Err(BoardError::PreconditionViolation));
    assert_eq!(chord_solved_cell(&mut laid, 4, 0), Err(BoardError::PreconditionViolation));
    assert_eq!(flag_solved_cell(&mut laid, 4, 0), Err(BoardError::PreconditionViolation));
}

#[test]
fn revealing_a_flagged_square_is_rejected() {
    let mut board = generate_board(4, 4, 2);
    assert!(right_click(&mut board, 2, 2).is_ok());
    assert_eq!(left_click(&mut board, 2, 2), Err(BoardError::PreconditionViolation));
    assert!(!board.initialized);
    assert!(board.cells[2][2].flagged);
    assert!(!board.cells[2][2].opened);
}

#[test]
fn reveal_cell_needs_the_mines_laid() {
    let mut board = generate_board(4, 4, 2);
    assert_eq!(reveal_cell(&mut board, 1, 1), Err(BoardError::PreconditionViolation));
    assert_eq!(clear_open_cells(&mut board, 1, 1), Err(BoardError::PreconditionViolation));
    assert_eq!(count_where(&board, |x| x.opened), 0);
}

#[test]
fn chord_opens_the_rest_once_the_mine_is_flagged() {
    let mut board = laid_out(3, 3, &[(0, 0)]);
    assert!(left_click(&mut board, 1, 1).is_ok());
    // No flag yet: nothing happens.
    assert_eq!(chord_solved_cell(&mut board, 1, 1), Ok(vec![]));
    assert_eq!(count_where(&board, |x| x.opened), 1);
    assert!(right_click(&mut board, 0, 0).is_ok());
    let signals = left_click(&mut board, 1, 1).unwrap();
    assert_eq!(count_where(&board, |x| x.opened), 8);
    assert!(!board.cells[0][0].opened);
    assert_eq!(board.cells_unopened, 0);
    assert!(board.game_over);
    assert_eq!(signals.len(), 8);
    assert_eq!(signals[7], Signal::BoardCleared);
    assert_eq!(signals.iter().filter(|s| **s == Signal::BoardCleared).count(), 1);
}

#[test]
fn chord_counts_only_flags_that_stand_on_mines() {
    let mut board = laid_out(3, 3, &[(0, 0)]);
    assert!(left_click(&mut board, 1, 1).is_ok());
    // One flag, as the value asks, but on a square without a mine.
    assert!(right_click(&mut board, 2, 2).is_ok());
    assert_eq!(chord_solved_cell(&mut board, 1, 1), Ok(vec![]));
    assert_eq!(count_where(&board, |x| x.opened), 1);
    assert!(!board.game_over);
    // With the mine flagged too the chord opens what bears no flag.
    assert!(right_click(&mut board, 0, 0).is_ok());
    let signals = chord_solved_cell(&mut board, 1, 1).unwrap();
    assert_eq!(signals.len(), 6);
    assert!(!board.cells[2][2].opened);
    assert_eq!(board.cells_unopened, 1);
    assert!(!board.game_over);
}

#[test]
fn chord_needs_an_open_square() {
    let mut board = laid_out(3, 3, &[(0, 0)]);
    assert_eq!(chord_solved_cell(&mut board, 1, 1), Err(BoardError::PreconditionViolation));
    assert_eq!(flag_solved_cell(&mut board, 1, 1), Err(BoardError::PreconditionViolation));
    assert_eq!(count_where(&board, |x| x.opened || x.flagged), 0);
}

#[test]
fn flags_are_completed_when_only_mines_are_left() {
    // Three mines above, and a wall of mines that keeps the right side closed.
    let mut board = laid_out(3, 7, &[(0, 0), (0, 1), (0, 2), (0, 4), (1, 4), (2, 4)]);
    assert_eq!(left_click(&mut board, 2, 0).unwrap().len(), 8);
    assert!(!board.game_over);
    assert_eq!(board.cells[1][1].value, 3);
    // Around (1, 1) the three closed squares are the mines; one bears a flag already.
    assert!(right_click(&mut board, 0, 1).is_ok());
    let signals = right_click(&mut board, 1, 1).unwrap();
    assert_eq!(
        signals,
        vec![
            Signal::FlagChanged { row: 0, col: 0, flagged: true },
            Signal::FlagChanged { row: 0, col: 2, flagged: true },
        ]
    );
    assert_eq!(count_where(&board, |x| x.flagged), 3);
    assert_eq!(count_where(&board, |x| x.opened), 8);
    assert_eq!(board.cells_unopened, 7);
    assert!(!board.game_over);
    // Everything is flagged now: doing it again changes nothing.
    assert_eq!(flag_solved_cell(&mut board, 1, 1), Ok(vec![]));
    assert_eq!(count_where(&board, |x| x.flagged), 3);
}

#[test]
fn flags_are_not_completed_while_safe_squares_are_closed() {
    let mut board = laid_out(3, 3, &[(0, 0)]);
    assert!(left_click(&mut board, 1, 1).is_ok());
    assert_eq!(flag_solved_cell(&mut board, 1, 1), Ok(vec![]));
    assert_eq!(right_click(&mut board, 1, 1), Ok(vec![]));
    assert_eq!(count_where(&board, |x| x.flagged), 0);
}

#[test]
fn flags_follow_the_order_of_the_steps() {
    let mut board = laid_out(3, 7, &[(0, 0), (2, 2), (0, 4), (1, 4), (2, 4)]);
    assert!(left_click(&mut board, 0, 2).is_ok());
    assert!(left_click(&mut board, 2, 0).is_ok());
    assert_eq!(board.cells[1][1].value, 2);
    assert!(board.cells[1][1].opened);
    assert!(!board.game_over);
    assert_eq!(
        flag_solved_cell(&mut board, 1, 1),
        Ok(vec![
            Signal::FlagChanged { row: 0, col: 0, flagged: true },
            Signal::FlagChanged { row: 2, col: 2, flagged: true },
        ])
    );
    assert!(board.cells[0][0].flagged);
    assert!(board.cells[2][2].flagged);
}

#[test]
fn winning_is_told_once_and_ends_the_game() {
    let mut board = laid_out(2, 2, &[(0, 0)]);
    assert_eq!(left_click(&mut board, 0, 1).unwrap().len(), 1);
    assert_eq!(left_click(&mut board, 1, 0).unwrap().len(), 1);
    assert!(!board.game_over);
    let last = left_click(&mut board, 1, 1).unwrap();
    assert_eq!(
        last,
        vec![
            Signal::CellRevealed { row: 1, col: 1, is_mine: false, adjacent_mine_count: 1 },
            Signal::BoardCleared
        ]
    );
    assert_eq!(board.cells_unopened, 0);
    assert!(board.game_over);
    assert_eq!(left_click(&mut board, 1, 1), Err(BoardError::PreconditionViolation));
    assert_eq!(left_click(&mut board, 0, 0), Err(BoardError::PreconditionViolation));
    assert!(!board.cells[0][0].opened);
}

#[test]
fn clear_open_cells_opens_around_any_square() {
    let mut board = laid_out(3, 4, &[(0, 3)]);
    let signals = clear_open_cells(&mut board, 1, 3).unwrap();
    // (1, 3) has value 1: its neighbours are opened, and the region goes on
    // from those of value zero, back to (1, 3) itself.
    assert!(board.cells[1][3].opened);
    assert!(board.cells[0][0].opened);
    assert!(board.cells[2][3].opened);
    assert!(!board.cells[0][3].opened);
    assert_eq!(count_where(&board, |x| x.opened), 11);
    assert_eq!(signals.len(), 12);
    assert_eq!(signals[11], Signal::BoardCleared);
    assert_eq!(board.cells_unopened, 0);
    assert!(board.game_over);
}

#[test]
fn clear_open_cells_leaves_what_no_chain_reaches() {
    // Mines in column 2 part the board: what lies right of them stays closed.
    let mut board = laid_out(3, 5, &[(0, 2), (1, 2), (2, 2)]);
    let signals = clear_open_cells(&mut board, 1, 1).unwrap();
    // Around (1, 1), value 3: its five safe neighbours; then (1, 1) itself,
    // reached from (1, 0), which has value zero.
    assert_eq!(count_where(&board, |x| x.opened), 6);
    for r in 0..3 {
        assert!(board.cells[r][0].opened);
        assert!(board.cells[r][1].opened);
        assert!(!board.cells[r][3].opened);
        assert!(!board.cells[r][4].opened);
    }
    assert_eq!(signals.len(), 6);
    assert_eq!(board.cells_unopened, 6);
    assert!(!board.game_over);
}

#[test]
fn game_over_reads_the_signals() {
    let mut board = laid_out(3, 3, &[(0, 0)]);
    let quiet = vec![Signal::FlagChanged { row: 1, col: 1, flagged: true }];
    assert_eq!(game_over(&mut board, &quiet), None);
    assert!(!board.game_over);
    assert_eq!(game_over(&mut board, &vec![]), None);
    let won = vec![
        Signal::CellRevealed { row: 1, col: 1, is_mine: false, adjacent_mine_count: 1 },
        Signal::BoardCleared,
    ];
    assert_eq!(game_over(&mut board, &won), Some(Outcome::Won));
    assert!(board.game_over);
    let mut other = laid_out(3, 3, &[(0, 0)]);
    let lost = vec![Signal::BoardCleared, Signal::MineTriggered];
    assert_eq!(game_over(&mut other, &lost), Some(Outcome::Lost));
    assert!(other.game_over);
}

#[test]
fn counter_is_zero_only_when_all_safe_squares_are_open() {
    let mut board = laid_out(3, 3, &[(1, 1)]);
    let order = [(0usize, 0usize), (0, 1), (0, 2), (1, 0), (1, 2), (2, 0), (2, 1), (2, 2)];
    for (n, &(r, c)) in order.iter().enumerate() {
        assert_eq!(board.cells_unopened, 8 - n);
        assert_eq!(count_where(&board, |x| !x.mine && !x.opened), 8 - n);
        let signals = left_click(&mut board, r, c).unwrap();
        assert_eq!(signals.contains(&Signal::BoardCleared), n == 7);
    }
    assert_eq!(board.cells_unopened, 0);
    assert!(board.game_over);
}

#[test]
fn boards_made_by_the_rules_are_consistent() {
    let mut board = generate_board(9, 9, 10);
    assert!(board.is_shaped());
    assert!(board.is_consistent());
    assert!(right_click(&mut board, 0, 0).is_ok());
    assert!(board.is_consistent());
    assert!(left_click(&mut board, 4, 4).is_ok());
    assert!(board.is_consistent());
    for r in 0..9 {
        for c in 0..9 {
            let _ = right_click(&mut board, r, c);
            assert!(board.is_consistent());
            let _ = left_click(&mut board, c, r);
            assert!(board.is_consistent());
        }
    }
    assert!(laid_out(4, 4, &[(0, 0)]).is_consistent());
    assert!(laid_out(3, 5, &[(0, 2), (1, 2), (2, 2)]).is_consistent());
    assert!(generate_board(0, 0, 0).is_consistent());
}

#[test]
fn tampered_boards_are_found_out() {
    let fresh = || laid_out(4, 4, &[(0, 0), (2, 3)]);

    let mut board = fresh();
    board.cells[1][1].value = 2;
    assert!(!board.is_consistent());

    let mut board = fresh();
    board.cells_unopened = 13;
    assert!(!board.is_consistent());

    let mut board = fresh();
    board.mines = 3;
    assert!(!board.is_consistent());

    let mut board = fresh();
    board.cells[3][3].opened = true;
    assert!(!board.is_consistent());
    board.cells_unopened = 13;
    assert!(board.is_consistent());

    let mut board = fresh();
    board.cells[2].pop();
    assert!(!board.is_shaped());
    assert!(!board.is_consistent());

    let mut board = fresh();
    board.cells[1][2].row = 2;
    assert!(!board.is_shaped());

    let mut board = fresh();
    board.height = 5;
    assert!(!board.is_shaped());

    let mut board = fresh();
    board.initialized = false;
    assert!(!board.is_consistent());

    let mut blank = generate_board(3, 3, 1);
    blank.cells[0][0].flagged = true;
    assert!(blank.is_consistent());
    blank.cells[0][0].opened = true;
    assert!(!blank.is_consistent());
}

/// The squares that the region around `seed` takes in, found by a plain search.
fn region_by_search(board: &Board, seed: (usize, usize)) -> Vec<Vec<bool>> {
    let mut taken = vec![vec![false; board.width]; board.height];
    let mut spreading = vec![seed];
    while let Some(from) = spreading.pop() {
        for r in 0..board.height {
            for c in 0..board.width {
                let x = board.cells[r][c];
                if touches(from, (r, c)) && !taken[r][c] && !x.opened && !x.flagged && !x.mine {
                    taken[r][c] = true;
                    if x.value == 0 {
                        spreading.push((r, c));
                    }
                }
            }
        }
    }
    taken
}

#[test]
fn flood_opens_exactly_what_chains_reach() {
    let mut seed: u64 = 0x2545_f491_4f6c_dd1d;
    let mut next = move |bound: usize| {
        seed ^= seed << 13;
        seed ^= seed >> 7;
        seed ^= seed << 17;
        (seed % bound as u64) as usize
    };
    for _ in 0..40 {
        let (height, width) = (2 + next(7), 2 + next(7));
        let mut mines = vec![];
        for _ in 0..next(height * width / 3 + 1) {
            let place = (next(height), next(width));
            if !mines.contains(&place) {
                mines.push(place);
            }
        }
        let mut board = laid_out(height, width, &mines);
        for _ in 0..3 {
            let (r, c) = (next(height), next(width));
            board.cells[r][c].flagged = !board.cells[r][c].mine && next(2) == 0;
        }
        assert!(board.is_consistent());
        let click = (next(height), next(width));
        let before = board.cells.clone();
        let target = before[click.0][click.1];
        let expected = region_by_search(&board, click);
        match left_click(&mut board, click.0, click.1) {
            Err(e) => {
                assert_eq!(e, BoardError::PreconditionViolation);
                assert!(target.flagged);
                assert_eq!(board.cells, before);
            }
            Ok(signals) => {
                assert!(board.is_consistent());
                for r in 0..height {
                    for c in 0..width {
                        let was = before[r][c];
                        let now = board.cells[r][c];
                        assert_eq!(Cell { opened: was.opened, ..now }, was);
                        let newly = now.opened && !was.opened;
                        let told = signals.iter().filter(|s| **s == revealed(&board, r, c)).count();
                        assert_eq!(told, if newly { 1 } else { 0 });
                        if (r, c) == click {
                            assert!(now.opened);
                        } else if target.mine || target.value != 0 {
                            assert!(!newly);
                        } else {
                            assert_eq!(newly, expected[r][c], "at {r},{c}");
                        }
                    }
                }
                assert_eq!(board.game_over, target.mine || board.cells_unopened == 0);
                assert_eq!(signals.contains(&Signal::MineTriggered), target.mine);
                assert_eq!(
                    signals.contains(&Signal::BoardCleared),
                    !target.mine && board.cells_unopened == 0
                );
            }
        }
    }
}

#[test]
fn every_value_is_the_number_of_mined_neighbours() {
    let mut board = generate_board(10, 12, 0);
    assert_eq!(board.fill_board(30, (9, 11)), Ok(()));
    for r in 0..10 {
        for c in 0..12 {
            let mut around = 0;
            for k in 0..8 {
                if let Some((i, j)) = board.check_in_bounds((r, c), surround(k)) {
                    assert!(touches((r, c), (i, j)));
                    if board.cells[i][j].mine {
                        around += 1;
                    }
                }
            }
            assert_eq!(board.cells[r][c].value, around);
            assert_eq!(around, mines_near(&board, r, c));
        }
    }
}

#[test]
fn chord_never_opens_a_mine() {
    let mut board = laid_out(4, 4, &[(0, 0), (0, 2), (3, 3)]);
    assert!(left_click(&mut board, 1, 1).is_ok());
    assert_eq!(board.cells[1][1].value, 2);
    assert!(right_click(&mut board, 0, 0).is_ok());
    // One of the two mines is flagged: the chord waits.
    assert_eq!(chord_solved_cell(&mut board, 1, 1), Ok(vec![]));
    assert!(right_click(&mut board, 0, 2).is_ok());
    let signals = chord_solved_cell(&mut board, 1, 1).unwrap();
    assert!(!signals.contains(&Signal::MineTriggered));
    assert_eq!(count_where(&board, |x| x.opened && x.mine), 0);
    assert!(board.cells[0][1].opened);
    assert!(board.cells[2][2].opened);
    assert!(!board.game_over || board.cells_unopened == 0);
}

#[test]
fn a_board_without_mines_is_won_at_the_first_click() {
    let mut board = generate_board(3, 4, 0);
    let signals = left_click(&mut board, 1, 2).unwrap();
    assert!(board.initialized);
    assert_eq!(count_where(&board, |x| x.mine), 0);
    assert_eq!(count_where(&board, |x| x.opened), 12);
    assert_eq!(board.cells_unopened, 0);
    assert!(board.game_over);
    assert_eq!(signals.len(), 13);
    assert_eq!(signals[0], revealed(&board, 1, 2));
    assert_eq!(signals[12], Signal::BoardCleared);
    assert_eq!(game_over(&mut board, &signals), Some(Outcome::Won));
}

#[test]
fn a_single_square_takes_no_mine() {
    let mut board = generate_board(1, 1, 1);
    assert_eq!(left_click(&mut board, 0, 0), Err(BoardError::ConfigurationError));
    assert!(!board.initialized);
    let mut empty = generate_board(1, 1, 0);
    assert_eq!(
        left_click(&mut empty, 0, 0),
        Ok(vec![
            Signal::CellRevealed { row: 0, col: 0, is_mine: false, adjacent_mine_count: 0 },
            Signal::BoardCleared
        ])
    );
}

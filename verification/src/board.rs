//! The grid and its aggregate state: laying the mines, opening regions,
//! chording and completing flags.

use vstd::prelude::*;
use rand::Rng;
use rand::SeedableRng;
use rand::rngs::SmallRng;
use crate::cell::{Cell, adjacency, neighbor, surround};
use crate::tally::{
    cell_in, count_around, count_before, count_cells, count_rows, hit, with_cell,
    lemma_count_around_same, lemma_count_before_within, lemma_count_cells_update,
    lemma_count_rows_bounds, lemma_count_rows_full, lemma_count_rows_nonnegative,
    lemma_count_rows_same, lemma_count_rows_zero,
};

verus! {

/// Why a command was turned down.
#[derive(Debug, Clone, Copy, PartialEq, Eq, Structural)]
pub enum BoardError {
    /// More mines were asked for than the grid can take.
    ConfigurationError,
    /// The command does not apply to the board or the square as they are.
    PreconditionViolation,
}

/// What a command tells the outside world.
#[derive(Debug, Clone, Copy, PartialEq, Eq, Structural)]
pub enum Signal {
    CellRevealed { row: usize, col: usize, is_mine: bool, adjacent_mine_count: u8 },
    FlagChanged { row: usize, col: usize, flagged: bool },
    MineTriggered,
    BoardCleared,
}

/// How a game ended.
#[derive(Debug, Clone, Copy, PartialEq, Eq, Structural)]
pub enum Outcome {
    Won,
    Lost,
}

/// The grid with its aggregate state.
#[derive(Debug)]
pub struct Board {
    pub cells: Vec<Vec<Cell>>,
    pub cells_unopened: usize,
    pub game_over: bool,
    pub height: usize,
    pub initialized: bool,
    pub mines: u16,
    pub width: usize,
}

/// The square holds a mine.
pub open spec fn is_mine() -> spec_fn(Cell) -> bool {
    |x: Cell| x.mine
}

/// The square holds no mine and is still closed: it has to be opened to win.
pub open spec fn is_hidden_safe() -> spec_fn(Cell) -> bool {
    |x: Cell| !x.mine && !x.opened
}

/// The square is still closed.
pub open spec fn is_closed() -> spec_fn(Cell) -> bool {
    |x: Cell| !x.opened
}

/// The square is closed, flagged, and holds a mine.
pub open spec fn is_flagged_mine() -> spec_fn(Cell) -> bool {
    |x: Cell| !x.opened && x.flagged && x.mine
}

/// The square is closed and flagged.
pub open spec fn is_flagged() -> spec_fn(Cell) -> bool {
    |x: Cell| !x.opened && x.flagged
}

/// The square is `start` or touches it: no mine is laid there.
pub open spec fn in_safe_zone(start: (int, int), place: (int, int)) -> bool {
    place == start || adjacency(place, start)
}

/// The square can take a mine: it has none and lies outside the safe zone.
pub open spec fn is_free(start: (int, int)) -> spec_fn(Cell) -> bool {
    |x: Cell| !x.mine && !in_safe_zone(start, x.place())
}

/// A random generator seeded by the operating system.
#[verifier::external_type_specification]
#[verifier::external_body]
pub struct ExSmallRng(rand::rngs::SmallRng);

/// `SmallRng::from_entropy`: a generator seeded from the operating system.
/// Nothing is claimed of it. It ends the process where the system has no
/// entropy to give.
#[verifier::external_body]
fn entropy_rng() -> SmallRng {
    SmallRng::from_entropy()
}

/// `Rng::gen_range` on `0..bound`: some number below `bound`. The range must
/// not be empty.
#[verifier::external_body]
fn random_below(rng: &mut SmallRng, bound: usize) -> (pick: usize)
    requires
        bound > 0,
    ensures
        pick < bound,
{
    rng.gen_range(0..bound)
}

/// A place given by machine integers, as a place of the model.
pub open spec fn spot(place: (usize, usize)) -> (int, int) {
    (place.0 as int, place.1 as int)
}

/// The closed, unflagged, mine-free square that a new board has at `(r, c)`.
pub open spec fn blank(r: int, c: int) -> Cell {
    Cell { column: c as usize, flagged: false, mine: false, opened: false, row: r as usize, value: 0 }
}

/// Whether `cell` can take a mine when the first reveal is at `start`.
fn can_take_mine(cell: &Cell, start: (usize, usize)) -> (yes: bool)
    ensures
        yes == is_free(spot(start))(*cell),
{
    !cell.mine && !(cell.row == start.0 && cell.column == start.1) && !cell.surrounds(start)
}

/// A property of squares that is counted over the grid.
pub(crate) enum Property {
    Mine,
    HiddenSafe,
    Free((usize, usize)),
}

/// The property as a predicate on squares.
pub(crate) open spec fn property(which: Property) -> spec_fn(Cell) -> bool {
    match which {
        Property::Mine => is_mine(),
        Property::HiddenSafe => is_hidden_safe(),
        Property::Free(start) => is_free(spot(start)),
    }
}

/// Whether `cell` has the property.
fn has_property(cell: &Cell, which: &Property) -> (yes: bool)
    ensures
        yes == property(*which)(*cell),
{
    match which {
        Property::Mine => cell.mine,
        Property::HiddenSafe => !cell.mine && !cell.opened,
        Property::Free(start) => can_take_mine(cell, *start),
    }
}

/// How many squares of the grid have the property.
pub(crate) fn count_matching(board: &Board, which: Property) -> (n: usize)
    requires
        board.shaped(),
    ensures
        n == count_cells(board.grid(), property(which)),
{
    let ghost p = property(which);
    let mut n: usize = 0;
    let mut r: usize = 0;
    proof {
        board.lemma_grid();
        lemma_count_rows_bounds(board.grid(), p, board.height as int, board.width as int);
    }
    while r < board.height
        invariant
            board.shaped(),
            p == property(which),
            r <= board.height,
            n == count_rows(board.grid(), p, r as int),
            count_cells(board.grid(), p) <= usize::MAX,
        decreases board.height - r,
    {
        let mut c: usize = 0;
        while c < board.width
            invariant
                board.shaped(),
                p == property(which),
                r < board.height,
                c <= board.width,
                n == count_before(board.grid(), p, r as int, c as int),
                count_cells(board.grid(), p) <= usize::MAX,
            decreases board.width - c,
        {
            let cell = board.cell(r, c);
            proof {
                board.lemma_grid();
                lemma_count_before_within(board.grid(), p, r as int, c as int);
            }
            if has_property(&cell, &which) {
                n += 1;
            }
            c += 1;
        }
        proof {
            board.lemma_grid();
        }
        r += 1;
    }
    proof {
        board.lemma_grid();
    }
    n
}

impl Board {
    /// The squares, row by row.
    pub open spec fn grid(&self) -> Seq<Seq<Cell>> {
        Seq::new(self.cells.len() as nat, |r: int| self.cells[r]@)
    }

    /// `(r, c)` is a square of the grid.
    pub open spec fn has(&self, r: int, c: int) -> bool {
        0 <= r < self.height && 0 <= c < self.width
    }

    /// The square at `(r, c)`.
    pub open spec fn at(&self, r: int, c: int) -> Cell {
        self.cells[r][c]
    }

    /// The grid is a rectangle of `height` by `width` squares, each of which
    /// knows its place.
    pub open spec fn shaped(&self) -> bool {
        &&& self.cells.len() == self.height
        &&& forall|r: int| 0 <= r < self.height ==> (#[trigger] self.cells[r]).len() == self.width
        &&& self.height * self.width <= usize::MAX
        &&& forall|r: int, c: int|
            self.has(r, c) ==> (#[trigger] self.at(r, c)).place() == (r, c)
    }

    /// The number of mines among the squares around `(r, c)`.
    pub open spec fn mines_around(&self, r: int, c: int) -> int {
        count_around(self.grid(), is_mine(), r, c, 8)
    }

    /// The number of mines in the grid.
    pub open spec fn mine_total(&self) -> int {
        count_cells(self.grid(), is_mine())
    }

    /// The number of squares still to open before the game is won.
    pub open spec fn hidden_safe_total(&self) -> int {
        count_cells(self.grid(), is_hidden_safe())
    }

    /// The board is consistent: a rectangle whose counter tells how many
    /// squares without a mine are still closed; before the mines are laid it is
    /// blank, afterwards it holds `mines` mines and every square's value is the
    /// number of mines around it.
    pub open spec fn wf(&self) -> bool {
        &&& self.shaped()
        &&& self.cells_unopened == self.hidden_safe_total()
        &&& if self.initialized {
            &&& self.mine_total() == self.mines
            &&& forall|r: int, c: int|
                self.has(r, c) ==> (#[trigger] self.at(r, c)).value == self.mines_around(r, c)
        } else {
            forall|r: int, c: int|
                self.has(r, c) ==> {
                    let x = #[trigger] self.at(r, c);
                    !x.mine && !x.opened && x.value == 0
                }
        }
    }

    /// Everything but the squares is the same in both boards.
    pub open spec fn same_state(&self, other: &Board) -> bool {
        &&& self.height == other.height
        &&& self.width == other.width
        &&& self.mines == other.mines
        &&& self.initialized == other.initialized
        &&& self.game_over == other.game_over
        &&& self.cells_unopened == other.cells_unopened
    }

    /// The square reached from `cell` by `offset`, if the grid has it.
    pub fn check_in_bounds(&self, cell: (usize, usize), offset: (isize, isize)) -> (found: Option<
        (usize, usize),
    >)
        ensures
            found == if self.has(cell.0 + offset.0, cell.1 + offset.1) {
                Some(((cell.0 + offset.0) as usize, (cell.1 + offset.1) as usize))
            } else {
                None
            },
    {
        let r: i128 = cell.0 as i128 + offset.0 as i128;
        let c: i128 = cell.1 as i128 + offset.1 as i128;
        if 0 <= r && r < self.height as i128 && 0 <= c && c < self.width as i128 {
            Some((r as usize, c as usize))
        } else {
            None
        }
    }

    /// The `k`-th neighbour of `(row, col)`, if the grid has it.
    pub(crate) fn neighbor_at(&self, row: usize, col: usize, k: usize) -> (found: Option<(usize, usize)>)
        requires
            k < 8,
        ensures
            found == ({
                let n = neighbor(row as int, col as int, k as int);
                if self.has(n.0, n.1) {
                    Some((n.0 as usize, n.1 as usize))
                } else {
                    None
                }
            }),
    {
        self.check_in_bounds((row, col), surround(k))
    }

    /// Replaces the square at `(r, c)`.
    pub(crate) fn put(&mut self, r: usize, c: usize, cell: Cell)
        requires
            old(self).shaped(),
            old(self).has(r as int, c as int),
            cell.place() == (r as int, c as int),
        ensures
            final(self).shaped(),
            final(self).same_state(old(self)),
            final(self).grid() == with_cell(old(self).grid(), r as int, c as int, cell),
            final(self).at(r as int, c as int) == cell,
            forall|i: int, j: int|
                old(self).has(i, j) && !(i == r && j == c) ==> #[trigger] final(self).at(i, j) == old(self).at(i, j),
    {
        assert(self.cells[r as int].len() == self.width);
        self.cells[r][c] = cell;
        proof {
            assert(self.cells@.len() == old(self).cells@.len());
            assert forall|i: int| 0 <= i < self.height implies (#[trigger] self.cells[i]).len() == self.width by {
                assert(old(self).cells[i].len() == self.width);
            }
            assert forall|i: int, j: int| self.has(i, j) implies (#[trigger] self.at(i, j)).place() == (i, j) by {
                assert(old(self).at(i, j).place() == (i, j));
            }
            assert(self.grid() =~= with_cell(old(self).grid(), r as int, c as int, cell));
        }
    }

    /// The square at `(row, col)`.
    pub(crate) fn cell(&self, row: usize, col: usize) -> (x: Cell)
        requires
            self.shaped(),
            self.has(row as int, col as int),
        ensures
            x == self.at(row as int, col as int),
            x == self.grid()[row as int][col as int],
            x.place() == (row as int, col as int),
    {
        assert(self.cells[row as int].len() == self.width);
        assert(self.at(row as int, col as int).place() == (row as int, col as int));
        self.cells[row][col]
    }

    /// The grid of the model has the squares that `has` tells of.
    pub proof fn lemma_grid(&self)
        requires
            self.shaped(),
        ensures
            self.grid().len() == self.height,
            forall|r: int| 0 <= r < self.height ==> (#[trigger] self.grid()[r]).len() == self.width,
            forall|r: int, c: int| cell_in(self.grid(), r, c) <==> self.has(r, c),
            forall|r: int, c: int| self.has(r, c) ==> self.grid()[r][c] == #[trigger] self.at(r, c),
    {
        assert forall|r: int| 0 <= r < self.height implies (#[trigger] self.grid()[r]).len() == self.width by {
            assert(self.cells[r].len() == self.width);
        }
    }

    /// The square that is number `rank`, counted from zero and row by row,
    /// among those that can take a mine when the first reveal is at `start`;
    /// none where there are not so many.
    pub fn pick_free(&self, start: (usize, usize), rank: usize) -> (place: Option<(usize, usize)>)
        requires
            self.shaped(),
        ensures
            place is Some <==> rank < self.free_total(spot(start)),
            place is Some ==> {
                let (r, c) = place.unwrap();
                &&& self.has(r as int, c as int)
                &&& is_free(spot(start))(self.at(r as int, c as int))
                &&& count_before(self.grid(), is_free(spot(start)), r as int, c as int) == rank
            },
    {
        let ghost p = is_free(spot(start));
        let mut seen: usize = 0;
        let mut r: usize = 0;
        while r < self.height
            invariant
                self.shaped(),
                p == is_free(spot(start)),
                r <= self.height,
                seen == count_rows(self.grid(), p, r as int),
                seen <= rank,
            decreases self.height - r,
        {
            let mut c: usize = 0;
            while c < self.width
                invariant
                    self.shaped(),
                    p == is_free(spot(start)),
                    r < self.height,
                    c <= self.width,
                    seen == count_before(self.grid(), p, r as int, c as int),
                    seen <= rank,
                decreases self.width - c,
            {
                let cell = self.cell(r, c);
                if can_take_mine(&cell, start) {
                    if seen == rank {
                        proof {
                            self.lemma_grid();
                            lemma_count_before_within(self.grid(), p, r as int, c as int);
                        }
                        return Some((r, c));
                    }
                    seen += 1;
                }
                c += 1;
            }
            proof {
                self.lemma_grid();
            }
            r += 1;
        }
        proof {
            self.lemma_grid();
        }
        None
    }

    /// The number of mines around `(row, col)`.
    pub(crate) fn count_mines_around(&self, row: usize, col: usize) -> (n: u8)
        requires
            self.shaped(),
        ensures
            n == self.mines_around(row as int, col as int),
    {
        let mut n: u8 = 0;
        let mut k: usize = 0;
        while k < 8
            invariant
                self.shaped(),
                k <= 8,
                n <= k,
                n == count_around(self.grid(), is_mine(), row as int, col as int, k as int),
            decreases 8 - k,
        {
            proof {
                self.lemma_grid();
            }
            match self.neighbor_at(row, col, k) {
                Some((r, c)) => {
                    let cell = self.cell(r, c);
                    if cell.mine {
                        n += 1;
                    }
                },
                None => {},
            }
            k += 1;
        }
        n
    }

    /// Writes into every square the number of mines around it.
    fn set_values(&mut self)
        requires
            old(self).shaped(),
        ensures
            final(self).shaped(),
            final(self).same_state(old(self)),
            forall|r: int, c: int|
                old(self).has(r, c) ==> #[trigger] final(self).at(r, c) == (Cell {
                    value: final(self).at(r, c).value,
                    ..old(self).at(r, c)
                }),
            forall|r: int, c: int|
                old(self).has(r, c) ==> (#[trigger] final(self).at(r, c)).value == final(self).mines_around(r, c),
    {
        let ghost before = *self;
        let mut r: usize = 0;
        while r < self.height
            invariant
                self.shaped(),
                before.shaped(),
                self.same_state(&before),
                r <= self.height,
                forall|i: int, j: int|
                    self.has(i, j) ==> #[trigger] self.at(i, j) == (Cell {
                        value: self.at(i, j).value,
                        ..before.at(i, j)
                    }),
                forall|i: int, j: int|
                    self.has(i, j) && i < r ==> (#[trigger] self.at(i, j)).value == before.mines_around(i, j),
            decreases self.height - r,
        {
            let mut c: usize = 0;
            while c < self.width
                invariant
                    self.shaped(),
                    before.shaped(),
                    self.same_state(&before),
                    r < self.height,
                    c <= self.width,
                    forall|i: int, j: int|
                        self.has(i, j) ==> #[trigger] self.at(i, j) == (Cell {
                            value: self.at(i, j).value,
                            ..before.at(i, j)
                        }),
                    forall|i: int, j: int|
                        self.has(i, j) && (i < r || (i == r && j < c)) ==> (#[trigger] self.at(i, j)).value
                            == before.mines_around(i, j),
                decreases self.width - c,
            {
                let value = self.count_mines_around(r, c);
                let cell = self.cell(r, c);
                proof {
                    self.lemma_mines_around_same(&before, r as int, c as int);
                }
                self.put(r, c, Cell { value, ..cell });
                c += 1;
            }
            r += 1;
        }
        proof {
            assert forall|i: int, j: int| before.has(i, j) implies (#[trigger] self.at(i, j)).value
                == self.mines_around(i, j) by {
                self.lemma_mines_around_same(&before, i, j);
            }
        }
    }

    /// Two boards of one shape with mines on the same squares have the same
    /// number of mines around every place.
    pub proof fn lemma_mines_around_same(&self, other: &Board, r: int, c: int)
        requires
            self.shaped(),
            other.shaped(),
            self.height == other.height,
            self.width == other.width,
            forall|i: int, j: int| self.has(i, j) ==> (#[trigger] self.at(i, j)).mine == other.at(i, j).mine,
        ensures
            self.mines_around(r, c) == other.mines_around(r, c),
    {
        self.lemma_grid();
        other.lemma_grid();
        assert forall|k: int| 0 <= k < 8 implies #[trigger] hit(self.grid(), is_mine(), r, c, k) == hit(
            other.grid(),
            is_mine(),
            r,
            c,
            k,
        ) by {
            let n = neighbor(r, c, k);
            if self.has(n.0, n.1) {
                assert(self.at(n.0, n.1).mine == other.at(n.0, n.1).mine);
            }
        }
        lemma_count_around_same(self.grid(), is_mine(), other.grid(), is_mine(), r, c, 8);
    }

    /// How many squares can take a mine when the first reveal is at `start`.
    pub open spec fn free_total(&self, start: (int, int)) -> int {
        count_cells(self.grid(), is_free(start))
    }

    /// What laying `mines` mines around a first reveal at `start` makes of the
    /// blank board `before`: the grid holds exactly `mines` mines, none of them
    /// on `start` or beside it, every square's value is the number of mines
    /// around it, the flags stay, and nothing is opened.
    pub open spec fn filled_from(&self, before: &Board, mines: u16, start: (int, int)) -> bool {
        &&& self.initialized
        &&& self.mines == mines
        &&& self.mine_total() == mines
        &&& forall|r: int, c: int|
            self.has(r, c) ==> (#[trigger] self.at(r, c)).value == self.mines_around(r, c)
        &&& self.height == before.height
        &&& self.width == before.width
        &&& self.game_over == before.game_over
        &&& self.cells_unopened == self.height * self.width - mines
        &&& forall|r: int, c: int|
            self.has(r, c) ==> #[trigger] self.at(r, c) == (Cell {
                mine: self.at(r, c).mine,
                value: self.at(r, c).value,
                ..before.at(r, c)
            })
        &&& forall|r: int, c: int|
            self.has(r, c) && in_safe_zone(start, (r, c)) ==> !(#[trigger] self.at(r, c)).mine
    }

    /// A blank board counts every square as still to open.
    pub proof fn lemma_blank_total(&self)
        requires
            self.wf(),
            !self.initialized,
        ensures
            self.cells_unopened == self.height * self.width,
    {
        self.lemma_grid();
        assert forall|i: int, j: int| 0 <= i < self.height && 0 <= j < self.width implies is_hidden_safe()(
            #[trigger] self.grid()[i][j],
        ) by {
            assert(self.has(i, j));
            assert(!self.at(i, j).mine);
        }
        lemma_count_rows_full(self.grid(), is_hidden_safe(), self.height as int, self.width as int);
    }

    /// Lays `mines` mines at random, none on `start` nor beside it, and writes
    /// every square's value. A board whose mines are laid is left as it is.
    /// The call is turned down, and the board left blank, where `start` is no
    /// square of the grid or the squares away from `start` cannot take so many
    /// mines.
    pub fn fill_board(&mut self, mines: u16, start: (usize, usize)) -> (res: Result<(), BoardError>)
        requires
            old(self).wf(),
        ensures
            final(self).wf(),
            old(self).initialized ==> *final(self) == *old(self),
            res is Err ==> *final(self) == *old(self),
            res is Ok <==> old(self).initialized || (old(self).has(start.0 as int, start.1 as int) && mines
                <= old(self).free_total(spot(start))),
            !old(self).initialized ==> (res == Err::<(), BoardError>(BoardError::PreconditionViolation)
                <==> !old(self).has(start.0 as int, start.1 as int)),
            !old(self).initialized ==> (res == Err::<(), BoardError>(BoardError::ConfigurationError)
                <==> old(self).has(start.0 as int, start.1 as int) && mines > old(self).free_total(
                spot(start),
            )),
            !old(self).initialized && res is Ok ==> final(self).filled_from(old(self), mines, spot(start)),
    {
        if self.initialized {
            return Ok(());
        }
        if start.0 >= self.height || start.1 >= self.width {
            return Err(BoardError::PreconditionViolation);
        }
        let free = count_matching(self, Property::Free(start));
        if mines as usize > free {
            return Err(BoardError::ConfigurationError);
        }
        let ghost before = *self;
        let ghost p = is_free(spot(start));
        proof {
            self.lemma_blank_total();
            self.lemma_no_mines();
        }
        let mut rng = entropy_rng();
        let mut placed: u16 = 0;
        while placed < mines
            invariant
                self.shaped(),
                before.shaped(),
                self.same_state(&before),
                p == is_free(spot(start)),
                placed <= mines,
                mines <= free,
                before.cells_unopened == self.height * self.width,
                count_cells(self.grid(), p) == free - placed,
                count_cells(self.grid(), is_mine()) == placed,
                count_cells(self.grid(), is_hidden_safe()) == before.cells_unopened - placed,
                forall|i: int, j: int|
                    self.has(i, j) ==> #[trigger] self.at(i, j) == (Cell {
                        mine: self.at(i, j).mine,
                        ..before.at(i, j)
                    }),
                forall|i: int, j: int| self.has(i, j) ==> !(#[trigger] before.at(i, j)).opened,
                forall|i: int, j: int|
                    self.has(i, j) && in_safe_zone(spot(start), (i, j)) ==> !(#[trigger] self.at(i, j)).mine,
            decreases mines - placed,
        {
            let ghost mid = *self;
            let rank = random_below(&mut rng, free - placed as usize);
            match self.pick_free(start, rank) {
                Some((row, col)) => {
                    let cell = self.cell(row, col);
                    self.put(row, col, Cell { mine: true, ..cell });
                    proof {
                        let r = row as int;
                        let c = col as int;
                        mid.lemma_grid();
                        assert(!before.at(r, c).opened);
                        lemma_count_cells_update(mid.grid(), p, r, c, self.at(r, c));
                        lemma_count_cells_update(mid.grid(), is_mine(), r, c, self.at(r, c));
                        lemma_count_cells_update(mid.grid(), is_hidden_safe(), r, c, self.at(r, c));
                        assert forall|i: int, j: int| self.has(i, j) implies #[trigger] self.at(i, j) == (Cell {
                            mine: self.at(i, j).mine,
                            ..before.at(i, j)
                        }) by {
                            assert(mid.at(i, j) == (Cell { mine: mid.at(i, j).mine, ..before.at(i, j) }));
                        }
                        assert forall|i: int, j: int|
                            self.has(i, j) && in_safe_zone(spot(start), (i, j)) implies !(#[trigger] self.at(
                            i,
                            j,
                        )).mine by {
                            assert(!mid.at(i, j).mine);
                        }
                    }
                },
                None => {},
            }
            placed += 1;
        }
        let ghost laid = *self;
        self.set_values();
        let ghost valued = *self;
        proof {
            laid.lemma_grid();
            lemma_count_rows_nonnegative(laid.grid(), is_hidden_safe(), laid.height as int);
        }
        self.cells_unopened = self.height * self.width - mines as usize;
        self.mines = mines;
        self.initialized = true;
        proof {
            self.lemma_same_cells(&valued);
            self.lemma_grid();
            assert forall|i: int, j: int|
                0 <= i < self.height && 0 <= j < laid.grid()[i].len() implies is_mine()(
                #[trigger] laid.grid()[i][j],
            ) == is_mine()(self.grid()[i][j]) by {
                assert(valued.at(i, j).mine == laid.at(i, j).mine);
            }
            lemma_count_rows_same(laid.grid(), is_mine(), self.grid(), is_mine(), self.height as int);
            assert forall|i: int, j: int|
                0 <= i < self.height && 0 <= j < laid.grid()[i].len() implies is_hidden_safe()(
                #[trigger] laid.grid()[i][j],
            ) == is_hidden_safe()(self.grid()[i][j]) by {
                assert(valued.at(i, j).mine == laid.at(i, j).mine);
            }
            lemma_count_rows_same(
                laid.grid(),
                is_hidden_safe(),
                self.grid(),
                is_hidden_safe(),
                self.height as int,
            );
            assert forall|i: int, j: int| self.has(i, j) implies #[trigger] self.at(i, j) == (Cell {
                mine: self.at(i, j).mine,
                value: self.at(i, j).value,
                ..before.at(i, j)
            }) by {
                assert(laid.at(i, j) == (Cell { mine: laid.at(i, j).mine, ..before.at(i, j) }));
                assert(valued.at(i, j).mine == laid.at(i, j).mine);
            }
            assert forall|i: int, j: int|
                self.has(i, j) && in_safe_zone(spot(start), (i, j)) implies !(#[trigger] self.at(
                i,
                j,
            )).mine by {
                assert(!laid.at(i, j).mine);
                assert(valued.at(i, j).mine == laid.at(i, j).mine);
            }
            assert forall|i: int, j: int| self.has(i, j) implies (#[trigger] self.at(i, j)).value
                == self.mines_around(i, j) by {
                assert(valued.at(i, j).value == valued.mines_around(i, j));
            }
        }
        Ok(())
    }

    /// A blank board holds no mine.
    pub proof fn lemma_no_mines(&self)
        requires
            self.wf(),
            !self.initialized,
        ensures
            self.mine_total() == 0,
    {
        self.lemma_grid();
        assert forall|i: int, j: int| 0 <= i < self.height && 0 <= j < self.grid()[i].len() implies !is_mine()(
            #[trigger] self.grid()[i][j],
        ) by {
            assert(self.has(i, j));
            assert(!self.at(i, j).mine);
        }
        lemma_count_rows_zero(self.grid(), is_mine(), self.height as int);
    }

    /// Two boards with the same squares and sides are alike in all that the
    /// squares decide.
    pub proof fn lemma_same_cells(&self, other: &Board)
        requires
            self.cells == other.cells,
            self.height == other.height,
            self.width == other.width,
        ensures
            self.grid() == other.grid(),
            self.shaped() == other.shaped(),
            forall|r: int, c: int| #[trigger] self.at(r, c) == other.at(r, c),
            forall|r: int, c: int| #[trigger] self.mines_around(r, c) == other.mines_around(r, c),
    {
        assert(self.grid() =~= other.grid());
        if other.shaped() {
            assert forall|r: int, c: int| self.has(r, c) implies (#[trigger] self.at(r, c)).place() == (r, c) by {
                assert(other.at(r, c).place() == (r, c));
            }
        }
        if self.shaped() {
            assert forall|r: int, c: int| other.has(r, c) implies (#[trigger] other.at(r, c)).place() == (r, c) by {
                assert(self.at(r, c).place() == (r, c));
            }
        }
    }

    /// Sets or takes away the flag of the square at `(r, c)`.
    pub(crate) fn set_flag(&mut self, r: usize, c: usize, flagged: bool)
        requires
            old(self).wf(),
            old(self).has(r as int, c as int),
        ensures
            final(self).wf(),
            final(self).same_state(old(self)),
            final(self).at(r as int, c as int) == (Cell { flagged, ..old(self).at(r as int, c as int) }),
            forall|i: int, j: int|
                old(self).has(i, j) && !(i == r && j == c) ==> #[trigger] final(self).at(i, j) == old(self).at(i, j),
    {
        let cell = self.cell(r, c);
        let ghost prev = *self;
        let marked = Cell { flagged, ..cell };
        proof {
            self.lemma_grid();
            lemma_count_cells_update(self.grid(), is_mine(), r as int, c as int, marked);
            lemma_count_cells_update(self.grid(), is_hidden_safe(), r as int, c as int, marked);
        }
        self.put(r, c, marked);
        proof {
            if self.initialized {
                assert forall|i: int, j: int| self.has(i, j) implies (#[trigger] self.at(i, j)).value
                    == self.mines_around(i, j) by {
                    assert(self.at(i, j).value == prev.at(i, j).value);
                    assert forall|a: int, b: int| self.has(a, b) implies (#[trigger] self.at(a, b)).mine
                        == prev.at(a, b).mine by {}
                    self.lemma_mines_around_same(&prev, i, j);
                }
            } else {
                assert forall|i: int, j: int| self.has(i, j) implies ({
                    let x = #[trigger] self.at(i, j);
                    !x.mine && !x.opened && x.value == 0
                }) by {
                    assert(!prev.at(i, j).mine);
                }
            }
        }
    }
}

/// A new board of `height` by `width` blank squares, on which `mines` mines
/// will be laid at the first reveal.
pub fn generate_board(height: usize, width: usize, mines: u16) -> (board: Board)
    requires
        height * width <= usize::MAX,
    ensures
        board.wf(),
        !board.initialized,
        !board.game_over,
        board.height == height,
        board.width == width,
        board.mines == mines,
        board.cells_unopened == height * width,
        forall|r: int, c: int| board.has(r, c) ==> #[trigger] board.at(r, c) == blank(r, c),
{
    let mut cells: Vec<Vec<Cell>> = Vec::new();
    let mut row: usize = 0;
    while row < height
        invariant
            row <= height,
            cells.len() == row,
            forall|i: int| 0 <= i < row ==> (#[trigger] cells[i]).len() == width,
            forall|i: int, j: int| 0 <= i < row && 0 <= j < width ==> #[trigger] cells[i][j] == blank(i, j),
        decreases height - row,
    {
        let mut line: Vec<Cell> = Vec::new();
        let mut column: usize = 0;
        while column < width
            invariant
                column <= width,
                line.len() == column,
                forall|j: int| 0 <= j < column ==> #[trigger] line[j] == blank(row as int, j),
            decreases width - column,
        {
            line.push(Cell { column, flagged: false, mine: false, opened: false, row, value: 0 });
            column += 1;
        }
        cells.push(line);
        row += 1;
    }
    let board = Board {
        cells,
        cells_unopened: height * width,
        game_over: false,
        height,
        initialized: false,
        mines,
        width,
    };
    proof {
        assert(board.shaped());
        board.lemma_grid();
        assert forall|i: int, j: int| 0 <= i < height && 0 <= j < width implies is_hidden_safe()(
            #[trigger] board.grid()[i][j],
        ) by {
            assert(board.at(i, j) == blank(i, j));
        }
        lemma_count_rows_full(board.grid(), is_hidden_safe(), height as int, width as int);
    }
    board
}

} // verus!

//! Testing at run time whether a board is consistent: for boards that were
//! put together by hand.

use vstd::prelude::*;
use crate::board::{Board, Property, count_matching};

verus! {

impl Board {
    /// Whether the grid is a rectangle of `height` by `width` squares, each
    /// of which knows its place.
    pub fn is_shaped(&self) -> (ok: bool)
        ensures
            ok == self.shaped(),
    {
        if self.cells.len() != self.height {
            return false;
        }
        if self.height.checked_mul(self.width).is_none() {
            return false;
        }
        let mut r: usize = 0;
        while r < self.height
            invariant
                self.cells.len() == self.height,
                self.height * self.width <= usize::MAX,
                r <= self.height,
                forall|i: int| 0 <= i < r ==> (#[trigger] self.cells[i]).len() == self.width,
                forall|i: int, j: int|
                    0 <= i < r && 0 <= j < self.width ==> (#[trigger] self.at(i, j)).place() == (i, j),
            decreases self.height - r,
        {
            if self.cells[r].len() != self.width {
                return false;
            }
            let mut c: usize = 0;
            while c < self.width
                invariant
                    self.cells.len() == self.height,
                    r < self.height,
                    c <= self.width,
                    self.cells[r as int].len() == self.width,
                    forall|j: int| 0 <= j < c ==> (#[trigger] self.at(r as int, j)).place() == (r as int, j),
                decreases self.width - c,
            {
                let x = self.cells[r][c];
                if x.row != r || x.column != c {
                    assert(self.has(r as int, c as int));
                    assert(self.at(r as int, c as int).place() != (r as int, c as int));
                    return false;
                }
                c += 1;
            }
            r += 1;
        }
        true
    }

    /// Whether the board is consistent.
    pub fn is_consistent(&self) -> (ok: bool)
        ensures
            ok == self.wf(),
    {
        if !self.is_shaped() {
            return false;
        }
        if count_matching(self, Property::HiddenSafe) != self.cells_unopened {
            return false;
        }
        if self.initialized && count_matching(self, Property::Mine) != self.mines as usize {
            return false;
        }
        let mut r: usize = 0;
        while r < self.height
            invariant
                self.shaped(),
                r <= self.height,
                forall|i: int, j: int| self.has(i, j) && i < r ==> self.sound_at(i, j),
            decreases self.height - r,
        {
            let mut c: usize = 0;
            while c < self.width
                invariant
                    self.shaped(),
                    r < self.height,
                    c <= self.width,
                    forall|i: int, j: int| self.has(i, j) && (i < r || (i == r && j < c)) ==> self.sound_at(i, j),
                decreases self.width - c,
            {
                let x = self.cell(r, c);
                if self.initialized {
                    if x.value != self.count_mines_around(r, c) {
                        assert(!self.sound_at(r as int, c as int));
                        assert(self.at(r as int, c as int).value != self.mines_around(r as int, c as int));
                        return false;
                    }
                } else if x.mine || x.opened || x.value != 0 {
                    assert(!self.sound_at(r as int, c as int));
                    assert(self.at(r as int, c as int) == x);
                    return false;
                }
                c += 1;
            }
            r += 1;
        }
        proof {
            assert forall|i: int, j: int| self.has(i, j) implies self.initialized ==> (#[trigger] self.at(
                i,
                j,
            )).value == self.mines_around(i, j) by {
                assert(self.sound_at(i, j));
            }
            assert forall|i: int, j: int| self.has(i, j) && !self.initialized implies ({
                let x = #[trigger] self.at(i, j);
                !x.mine && !x.opened && x.value == 0
            }) by {
                assert(self.sound_at(i, j));
            }
        }
        true
    }

    /// The square at `(r, c)` is as the state of the board asks: blank before
    /// the mines are laid, and with the number of mines around it as its value
    /// afterwards.
    pub open spec fn sound_at(&self, r: int, c: int) -> bool {
        let x = self.at(r, c);
        if self.initialized {
            x.value == self.mines_around(r, c)
        } else {
            !x.mine && !x.opened && x.value == 0
        }
    }
}

} // verus!

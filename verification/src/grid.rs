//! A rectangular grid of values, addressed by position.
use vstd::prelude::*;

use crate::position::{Position, COORDINATE_LIMIT};

verus! {

/// A grid of values, one for every cell.
#[derive(Clone, Debug)]
pub struct Grid<T> {
    rows: Vec<Vec<T>>,
}

impl<T: Copy> Grid<T> {
    /// The number of rows.
    pub closed spec fn rows(&self) -> int {
        self.rows@.len() as int
    }

    /// The number of columns: the length of the first row, and zero where there
    /// is no row.
    pub closed spec fn columns(&self) -> int {
        if self.rows@.len() > 0 {
            self.rows@[0]@.len() as int
        } else {
            0
        }
    }

    /// The value of the cell `p`.
    pub closed spec fn value(&self, p: Position) -> T {
        self.rows@[p.row as int]@[p.column as int]
    }

    /// All rows have the same length.
    pub closed spec fn rectangular(&self) -> bool {
        forall|r: int| 0 <= r < self.rows@.len() ==> (#[trigger] self.rows@[r])@.len() == self.columns()
    }

    /// `p` is a cell of the grid.
    pub open spec fn inside(&self, p: Position) -> bool {
        0 <= p.row < self.rows() && 0 <= p.column < self.columns()
    }

    /// The grid is well formed: it is rectangular, and small enough for its
    /// cells to be positions.
    pub open spec fn wf(&self) -> bool {
        &&& self.rectangular()
        &&& self.rows() <= COORDINATE_LIMIT
        &&& self.columns() <= COORDINATE_LIMIT
    }

    /// The grid of `height` rows and `width` columns in which every cell holds
    /// `default`.
    pub fn new(width: usize, height: usize, default: T) -> (grid: Grid<T>)
        requires
            width <= COORDINATE_LIMIT,
            height <= COORDINATE_LIMIT,
        ensures
            grid.wf(),
            grid.rows() == height,
            height > 0 ==> grid.columns() == width,
            forall|p: Position| grid.inside(p) ==> #[trigger] grid.value(p) == default,
    {
        let mut rows: Vec<Vec<T>> = Vec::new();
        let mut row: usize = 0;
        while row < height
            invariant
                row <= height,
                rows@.len() == row,
                forall|r: int| 0 <= r < row ==> (#[trigger] rows@[r])@.len() == width,
                forall|r: int, c: int|
                    0 <= r < row && 0 <= c < width ==> #[trigger] rows@[r]@[c] == default,
            decreases height - row,
        {
            let mut line: Vec<T> = Vec::new();
            let mut column: usize = 0;
            while column < width
                invariant
                    column <= width,
                    line@.len() == column,
                    forall|c: int| 0 <= c < column ==> #[trigger] line@[c] == default,
                decreases width - column,
            {
                line.push(default);
                column += 1;
            }
            rows.push(line);
            row += 1;
        }
        let grid = Grid { rows };
        proof {
            assert forall|p: Position| grid.inside(p) implies #[trigger] grid.value(p)
                == default by {
                assert(grid.rows@[p.row as int]@[p.column as int] == default);
            }
        }
        grid
    }

    pub fn width(&self) -> (width: usize)
        ensures
            width == self.columns(),
    {
        if self.rows.len() > 0 {
            self.rows[0].len()
        } else {
            0
        }
    }

    pub fn height(&self) -> (height: usize)
        ensures
            height == self.rows(),
    {
        self.rows.len()
    }

    /// The value of the cell `p`.
    pub fn get(&self, p: &Position) -> (value: T)
        requires
            self.wf(),
            self.inside(*p),
        ensures
            value == self.value(*p),
    {
        self.rows[p.row as usize][p.column as usize]
    }

    /// Gives the cell `p` the value `value`.
    pub fn set(&mut self, p: &Position, value: T)
        requires
            old(self).wf(),
            old(self).inside(*p),
        ensures
            final(self).wf(),
            final(self).rows() == old(self).rows(),
            final(self).columns() == old(self).columns(),
            final(self).value(*p) == value,
            forall|q: Position|
                final(self).inside(q) && q != *p ==> #[trigger] final(self).value(q) == old(
                    self,
                ).value(q),
    {
        let row: usize = p.row as usize;
        let column: usize = p.column as usize;
        let ghost before = self.rows@;
        self.rows[row][column] = value;
        proof {
            assert forall|r: int| 0 <= r < self.rows@.len() implies (#[trigger] self.rows@[r])@.len()
                == before[r]@.len() by {
                if r != row {
                    assert(self.rows@[r] == before[r]);
                }
            }
            assert forall|q: Position| self.inside(q) && q != *p implies #[trigger] self.value(q)
                == old(self).value(q) by {
                if q.row != p.row {
                    assert(self.rows@[q.row as int] == before[q.row as int]);
                }
            }
        }
    }

    /// The cells of the grid, row by row, each with its value.
    pub fn iter(&self) -> (entries: Vec<(Position, T)>)
        requires
            self.wf(),
        ensures
            entries@.len() == self.rows() * self.columns(),
            forall|r: int, c: int|
                0 <= r < self.rows() && 0 <= c < self.columns() ==> (#[trigger] entries@[r
                    * self.columns() + c]) == (
                    Position { row: r as i32, column: c as i32 },
                    self.value(Position { row: r as i32, column: c as i32 }),
                ),
    {
        let mut entries: Vec<(Position, T)> = Vec::new();
        let height = self.height();
        let width = self.width();
        let mut row: usize = 0;
        while row < height
            invariant
                self.wf(),
                height == self.rows(),
                width == self.columns(),
                row <= height,
                entries@.len() == row * width,
                forall|r: int, c: int|
                    0 <= r < row && 0 <= c < width ==> (#[trigger] entries@[r * width + c]) == (
                        Position { row: r as i32, column: c as i32 },
                        self.value(Position { row: r as i32, column: c as i32 }),
                    ),
            decreases height - row,
        {
            let mut column: usize = 0;
            while column < width
                invariant
                    self.wf(),
                    height == self.rows(),
                    width == self.columns(),
                    row < height,
                    column <= width,
                    entries@.len() == row * width + column,
                    forall|r: int, c: int|
                        (0 <= r < row && 0 <= c < width) || (r == row && 0 <= c < column) ==> (
                        #[trigger] entries@[r * width + c]) == (
                            Position { row: r as i32, column: c as i32 },
                            self.value(Position { row: r as i32, column: c as i32 }),
                        ),
                decreases width - column,
            {
                let p = Position::at(row, column);
                let ghost before = entries@;
                entries.push((p, self.get(&p)));
                proof {
                    assert forall|r: int, c: int|
                        (0 <= r < row && 0 <= c < width) || (r == row && 0 <= c < column
                            + 1) implies (#[trigger] entries@[r * width + c]) == (
                        Position { row: r as i32, column: c as i32 },
                        self.value(Position { row: r as i32, column: c as i32 }),
                    ) by {
                        if r < row {
                            assert(r * width + c < row * width) by (nonlinear_arith)
                                requires
                                    0 <= r < row,
                                    0 <= c < width,
                            ;
                            assert(entries@[r * width + c] == before[r * width + c]);
                        } else if c < column {
                            assert(entries@[r * width + c] == before[r * width + c]);
                        }
                    }
                }
                column += 1;
            }
            proof {
                assert(row * width + width == (row + 1) * width) by (nonlinear_arith);
            }
            row += 1;
        }
        entries
    }

    /// Gives every cell, row by row, the value that `update` makes of the cell
    /// and its value.
    pub fn iter_mut<F: Fn(Position, T) -> T>(&mut self, update: F)
        requires
            old(self).wf(),
            forall|p: Position, v: T| #[trigger] update.requires((p, v)),
        ensures
            final(self).wf(),
            final(self).rows() == old(self).rows(),
            final(self).columns() == old(self).columns(),
            forall|p: Position|
                final(self).inside(p) ==> update.ensures(
                    (p, old(self).value(p)),
                    #[trigger] final(self).value(p),
                ),
    {
        let height = self.height();
        let width = self.width();
        let mut row: usize = 0;
        while row < height
            invariant
                self.wf(),
                old(self).wf(),
                self.rows() == old(self).rows(),
                self.columns() == old(self).columns(),
                height == self.rows(),
                width == self.columns(),
                row <= height,
                forall|p: Position, v: T| #[trigger] update.requires((p, v)),
                forall|p: Position|
                    self.inside(p) && p.row < row ==> update.ensures(
                        (p, old(self).value(p)),
                        #[trigger] self.value(p),
                    ),
                forall|p: Position|
                    self.inside(p) && p.row >= row ==> #[trigger] self.value(p) == old(self).value(
                        p,
                    ),
            decreases height - row,
        {
            let mut column: usize = 0;
            while column < width
                invariant
                    self.wf(),
                    old(self).wf(),
                    self.rows() == old(self).rows(),
                    self.columns() == old(self).columns(),
                    height == self.rows(),
                    width == self.columns(),
                    row < height,
                    column <= width,
                    forall|p: Position, v: T| #[trigger] update.requires((p, v)),
                    forall|p: Position|
                        self.inside(p) && (p.row < row || (p.row == row && p.column < column))
                            ==> update.ensures((p, old(self).value(p)), #[trigger] self.value(p)),
                    forall|p: Position|
                        self.inside(p) && !(p.row < row || (p.row == row && p.column < column))
                            ==> #[trigger] self.value(p) == old(self).value(p),
                decreases width - column,
            {
                let p = Position::at(row, column);
                let value = self.get(&p);
                let updated = update(p, value);
                self.set(&p, updated);
                column += 1;
            }
            row += 1;
        }
    }
}

} // verus!

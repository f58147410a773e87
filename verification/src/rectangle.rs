//! Axis-aligned rectangles of cells.
use vstd::prelude::*;

use crate::ordered::{ascending, Ordered};
use crate::position::Position;

verus! {

/// The cells `[min_row, max_row) x [min_column, max_column)`.
#[derive(Clone, Copy, Debug, PartialEq, Eq, Structural, PartialOrd, Ord, Hash)]
pub struct Rectangle {
    pub min_row: i32,
    pub max_row: i32,
    pub min_column: i32,
    pub max_column: i32,
}

impl Rectangle {
    /// The number of columns, zero when the bounds are crossed.
    pub open spec fn columns(self) -> int {
        if self.max_column > self.min_column {
            self.max_column - self.min_column
        } else {
            0
        }
    }

    /// The number of rows, zero when the bounds are crossed.
    pub open spec fn rows(self) -> int {
        if self.max_row > self.min_row {
            self.max_row - self.min_row
        } else {
            0
        }
    }

    /// The number of cells.
    pub open spec fn cell_count(self) -> int {
        self.columns() * self.rows()
    }

    /// `p` is one of the cells of this rectangle.
    pub open spec fn contains(self, p: Position) -> bool {
        &&& self.min_row <= p.row < self.max_row
        &&& self.min_column <= p.column < self.max_column
    }

    /// The cells of this rectangle.
    pub open spec fn cells(self) -> Set<Position> {
        Set::new(|p: Position| self.contains(p))
    }

    /// `self` is the smallest rectangle that holds every position of `cells`; of
    /// no positions at all it is the empty rectangle at the origin.
    pub open spec fn bounds(self, cells: Set<Position>) -> bool {
        if cells.is_empty() {
            self == (Rectangle { min_row: 0, max_row: 0, min_column: 0, max_column: 0 })
        } else {
            &&& forall|p: Position| cells.contains(p) ==> self.contains(p)
            &&& exists|p: Position| #[trigger] cells.contains(p) && p.row == self.min_row
            &&& exists|p: Position| #[trigger] cells.contains(p) && p.row == self.max_row - 1
            &&& exists|p: Position| #[trigger] cells.contains(p) && p.column == self.min_column
            &&& exists|p: Position| #[trigger] cells.contains(p) && p.column == self.max_column - 1
        }
    }

    /// At most one rectangle bounds a set of positions.
    pub proof fn lemma_bounds_unique(a: Rectangle, b: Rectangle, cells: Set<Position>)
        requires
            a.bounds(cells),
            b.bounds(cells),
        ensures
            a == b,
    {
    }

    /// The rectangle of `height` rows and `width` columns whose first cell is the
    /// origin.
    pub fn from_dimensions(width: usize, height: usize) -> (r: Rectangle)
        requires
            width <= i32::MAX,
            height <= i32::MAX,
        ensures
            r == (Rectangle { min_row: 0, max_row: height as i32, min_column: 0, max_column: width as i32 }),
    {
        Rectangle { min_row: 0, max_row: height as i32, min_column: 0, max_column: width as i32 }
    }

    pub fn width(&self) -> (w: u32)
        ensures
            w == self.columns(),
    {
        if self.max_column > self.min_column {
            (self.max_column as i64 - self.min_column as i64) as u32
        } else {
            0
        }
    }

    pub fn height(&self) -> (h: u32)
        ensures
            h == self.rows(),
    {
        if self.max_row > self.min_row {
            (self.max_row as i64 - self.min_row as i64) as u32
        } else {
            0
        }
    }

    /// Width times height.
    pub fn area(&self) -> (a: u64)
        ensures
            a == self.cell_count(),
    {
        let w: u64 = self.width() as u64;
        let h: u64 = self.height() as u64;
        assert(w * h <= 0xffff_ffff * 0xffff_ffff) by (nonlinear_arith)
            requires
                0 <= w <= 0xffff_ffff,
                0 <= h <= 0xffff_ffff,
        ;
        w * h
    }

    /// The first cell in row-major order.
    pub fn top_left(&self) -> (p: Position)
        ensures
            p == (Position { row: self.min_row, column: self.min_column }),
    {
        Position { row: self.min_row, column: self.min_column }
    }

    /// The cells of this rectangle, row by row.
    pub fn positions(&self) -> (cells: Vec<Position>)
        requires
            self.cell_count() <= usize::MAX,
        ensures
            forall|p: Position| cells@.contains(p) <==> self.contains(p),
            ascending(cells@),
            cells@.len() == self.cell_count(),
    {
        let mut cells: Vec<Position> = Vec::new();
        if self.max_row <= self.min_row || self.max_column <= self.min_column {
            assert(self.cell_count() == 0) by (nonlinear_arith)
                requires
                    self.columns() == 0 || self.rows() == 0,
            ;
            return cells;
        }
        let ghost columns = self.columns();
        let mut row: i32 = self.min_row;
        while row < self.max_row
            invariant
                self.min_row < self.max_row,
                self.min_column < self.max_column,
                columns == self.columns(),
                self.cell_count() <= usize::MAX,
                self.min_row <= row <= self.max_row,
                forall|p: Position| cells@.contains(p) <==> self.contains(p) && p.row < row,
                ascending(cells@),
                cells@.len() == (row - self.min_row) * columns,
            decreases self.max_row - row,
        {
            let mut column: i32 = self.min_column;
            while column < self.max_column
                invariant
                    self.min_row < self.max_row,
                    self.min_column < self.max_column,
                    columns == self.columns(),
                    self.cell_count() <= usize::MAX,
                    self.min_row <= row < self.max_row,
                    self.min_column <= column <= self.max_column,
                    forall|p: Position|
                        cells@.contains(p) <==> self.contains(p) && (p.row < row || (p.row == row
                            && p.column < column)),
                    ascending(cells@),
                    cells@.len() == (row - self.min_row) * columns + (column - self.min_column),
                decreases self.max_column - column,
            {
                let cell = Position { row, column };
                let ghost before = cells@;
                proof {
                    assert((row - self.min_row) * columns + columns <= self.rows() * columns)
                        by (nonlinear_arith)
                        requires
                            row - self.min_row + 1 <= self.rows(),
                            columns >= 0,
                    ;
                    assert(self.rows() * columns == self.cell_count()) by (nonlinear_arith)
                        requires
                            self.cell_count() == self.columns() * self.rows(),
                            columns == self.columns(),
                    ;
                }
                cells.push(cell);
                proof {
                    let after = cells@;
                    assert(after == before.push(cell));
                    assert forall|p: Position| after.contains(p) implies self.contains(p) && (p.row
                        < row || (p.row == row && p.column < column + 1)) by {
                        let k = choose|k: int| 0 <= k < after.len() && after[k] == p;
                        if k < before.len() {
                            assert(before[k] == p);
                            assert(before.contains(p));
                        } else {
                            assert(p == cell);
                        }
                    }
                    assert forall|p: Position|
                        self.contains(p) && (p.row < row || (p.row == row && p.column < column
                            + 1)) implies after.contains(p) by {
                        if p.row == row && p.column == column {
                            assert(after[before.len() as int] == p);
                        } else {
                            assert(before.contains(p));
                            let k = choose|k: int| 0 <= k < before.len() && before[k] == p;
                            assert(after[k] == p);
                        }
                    }
                    assert forall|i: int, j: int| 0 <= i < j < after.len() implies after[i].before(
                        after[j],
                    ) by {
                        if j < before.len() {
                            assert(before[i].before(before[j]));
                            assert(after[i] == before[i] && after[j] == before[j]);
                        } else {
                            let q = before[i];
                            assert(before.contains(q));
                            assert(self.contains(q) && (q.row < row || (q.row == row && q.column
                                < column)));
                            assert(after[i] == q && after[j] == cell);
                            assert(q.precedes(cell));
                        }
                    }
                }
                column += 1;
            }
            proof {
                assert((row - self.min_row) * columns + columns == (row + 1 - self.min_row)
                    * columns) by (nonlinear_arith);
            }
            row += 1;
        }
        proof {
            assert((self.max_row - self.min_row) * columns == self.cell_count())
                by (nonlinear_arith)
                requires
                    self.cell_count() == self.columns() * self.rows(),
                    columns == self.columns(),
                    self.rows() == self.max_row - self.min_row,
            ;
        }
        cells
    }

    /// The smallest rectangle that holds every one of `positions`.
    pub fn bounding_rectangle(positions: &Vec<Position>) -> (r: Rectangle)
        requires
            forall|i: int|
                0 <= i < positions.len() ==> (#[trigger] positions[i]).row < i32::MAX
                    && positions[i].column < i32::MAX,
        ensures
            r.bounds(positions@.to_set()),
    {
        if positions.len() == 0 {
            assert(positions@.to_set() =~= Set::<Position>::empty());
            return Rectangle { min_row: 0, max_row: 0, min_column: 0, max_column: 0 };
        }
        let first = positions[0];
        let mut r = Rectangle {
            min_row: first.row,
            max_row: first.row + 1,
            min_column: first.column,
            max_column: first.column + 1,
        };
        let mut i: usize = 1;
        while i < positions.len()
            invariant
                1 <= i <= positions.len(),
                forall|k: int|
                    0 <= k < positions.len() ==> (#[trigger] positions[k]).row < i32::MAX
                        && positions[k].column < i32::MAX,
                forall|k: int| 0 <= k < i ==> r.contains(#[trigger] positions@[k]),
                exists|k: int| 0 <= k < i && (#[trigger] positions@[k]).row == r.min_row,
                exists|k: int| 0 <= k < i && (#[trigger] positions@[k]).row == r.max_row - 1,
                exists|k: int| 0 <= k < i && (#[trigger] positions@[k]).column == r.min_column,
                exists|k: int| 0 <= k < i && (#[trigger] positions@[k]).column == r.max_column - 1,
            decreases positions.len() - i,
        {
            let p = positions[i];
            let ghost old_r = r;
            let ghost a = choose|k: int| 0 <= k < i && (#[trigger] positions@[k]).row == r.min_row;
            let ghost b = choose|k: int| 0 <= k < i && (#[trigger] positions@[k]).row == r.max_row - 1;
            let ghost c = choose|k: int| 0 <= k < i && (#[trigger] positions@[k]).column == r.min_column;
            let ghost d = choose|k: int| 0 <= k < i && (#[trigger] positions@[k]).column == r.max_column - 1;
            if p.row < r.min_row {
                r.min_row = p.row;
            }
            if p.row >= r.max_row {
                r.max_row = p.row + 1;
            }
            if p.column < r.min_column {
                r.min_column = p.column;
            }
            if p.column >= r.max_column {
                r.max_column = p.column + 1;
            }
            proof {
                assert forall|k: int| 0 <= k < i + 1 implies r.contains(#[trigger] positions@[k]) by {
                    if k < i {
                        assert(old_r.contains(positions@[k]));
                    }
                }
                let a2 = if p.row < old_r.min_row { i as int } else { a };
                assert(positions@[a2].row == r.min_row);
                let b2 = if p.row >= old_r.max_row { i as int } else { b };
                assert(positions@[b2].row == r.max_row - 1);
                let c2 = if p.column < old_r.min_column { i as int } else { c };
                assert(positions@[c2].column == r.min_column);
                let d2 = if p.column >= old_r.max_column { i as int } else { d };
                assert(positions@[d2].column == r.max_column - 1);
            }
            i += 1;
        }
        proof {
            let cells = positions@.to_set();
            assert(cells.contains(positions@[0]));
            assert forall|p: Position| cells.contains(p) implies r.contains(p) by {
                let k = choose|k: int| 0 <= k < positions@.len() && positions@[k] == p;
                assert(r.contains(positions@[k]));
            }
            let a = choose|k: int| 0 <= k < i && (#[trigger] positions@[k]).row == r.min_row;
            assert(cells.contains(positions@[a]));
            let b = choose|k: int| 0 <= k < i && (#[trigger] positions@[k]).row == r.max_row - 1;
            assert(cells.contains(positions@[b]));
            let c = choose|k: int| 0 <= k < i && (#[trigger] positions@[k]).column == r.min_column;
            assert(cells.contains(positions@[c]));
            let d = choose|k: int| 0 <= k < i && (#[trigger] positions@[k]).column == r.max_column - 1;
            assert(cells.contains(positions@[d]));
        }
        r
    }

    pub fn contains_position(&self, p: &Position) -> (b: bool)
        ensures
            b == self.contains(*p),
    {
        self.min_row <= p.row && p.row < self.max_row && self.min_column <= p.column && p.column
            < self.max_column
    }
}

/// The smallest rectangle that holds `cells`.
pub open spec fn bounding_of(cells: Set<Position>) -> Rectangle {
    choose|r: Rectangle| r.bounds(cells)
}

/// The rectangle that bounds a set of cells is the one that `bounding_of` names.
pub proof fn lemma_bounding(cells: Set<Position>, r: Rectangle)
    requires
        r.bounds(cells),
    ensures
        bounding_of(cells) == r,
{
    Rectangle::lemma_bounds_unique(bounding_of(cells), r, cells);
}

} // verus!

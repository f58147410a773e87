//! Positions on the grid and on the doubled (half-step) lattice of centers.
use vstd::prelude::*;

use crate::border::Border;
use crate::ordered::Ordered;
use crate::rectangle::Rectangle;

verus! {

/// Cells of a galaxy keep both coordinates within this distance of zero, so that
/// sums of two coordinates, mirrors and neighbours all fit the machine integer.
pub const COORDINATE_LIMIT: i32 = 0x1000_0000;

/// A `(row, column)` pair. It names a cell of the grid or, on the doubled
/// lattice, the center of a galaxy.
#[derive(Clone, Copy, Debug, PartialEq, Eq, Structural, PartialOrd, Ord, Hash)]
pub struct Position {
    pub row: i32,
    pub column: i32,
}

/// Where a half-step center falls: inside a cell, on the edge between two cells,
/// or on the corner shared by four.
#[derive(Clone, Copy, Debug, PartialEq, Eq, Structural)]
pub enum CenterPlacement {
    /// Both coordinates even: the center lies in this cell.
    Center(Position),
    /// Row even, column odd: the center lies on the vertical edge between two
    /// cells of one row.
    VerticalBorder(Border),
    /// Row odd, column even: the center lies on the horizontal edge between two
    /// cells of one column.
    HorizontalBorder(Border),
    /// Both coordinates odd: the center lies on the corner shared by the four
    /// cells of this two-by-two rectangle.
    Intersection(Rectangle),
}

/// The largest `h` with `2 * h <= x`.
pub open spec fn half_floor_spec(x: int) -> int {
    if x % 2 == 0 {
        x / 2
    } else {
        (x - 1) / 2
    }
}

/// Halves `x`, rounding towards negative infinity.
pub fn half_floor(x: i32) -> (h: i32)
    ensures
        h == half_floor_spec(x as int),
        2 * h <= x <= 2 * h + 1,
{
    if x >= 0 {
        x / 2
    } else {
        let y: i32 = -(x + 1);
        -(y / 2) - 1
    }
}

impl Position {
    /// Both coordinates lie within `COORDINATE_LIMIT` of zero.
    pub open spec fn in_range(self) -> bool {
        &&& -COORDINATE_LIMIT <= self.row <= COORDINATE_LIMIT
        &&& -COORDINATE_LIMIT <= self.column <= COORDINATE_LIMIT
    }

    /// The position `dr` rows below and `dc` columns right of this one.
    pub open spec fn shift(self, dr: int, dc: int) -> Position {
        Position { row: (self.row + dr) as i32, column: (self.column + dc) as i32 }
    }

    /// The two positions differ by exactly one in exactly one coordinate.
    pub open spec fn adjacent_to(self, other: Position) -> bool {
        let dr = self.row - other.row;
        let dc = self.column - other.column;
        (dc == 0 && (dr == 1 || dr == -1)) || (dr == 0 && (dc == 1 || dc == -1))
    }

    /// Where the neighbour `q` stands when the neighbours of this position are
    /// named in the order up, down, left, right.
    pub open spec fn turn_of(self, q: Position) -> int {
        if q.row < self.row {
            0
        } else if q.row > self.row {
            1
        } else if q.column < self.column {
            2
        } else {
            3
        }
    }

    /// The point reflection of `p` through the half-step center `self`.
    pub open spec fn mirrored(self, p: Position) -> Position {
        Position { row: (self.row - p.row) as i32, column: (self.column - p.column) as i32 }
    }

    /// `p` is one of the one, two or four cells that surround the half-step
    /// center `self`.
    pub open spec fn surrounds(self, p: Position) -> bool {
        &&& -1 <= 2 * p.row - self.row <= 1
        &&& -1 <= 2 * p.column - self.column <= 1
    }

    /// Lexicographic order: by row, then by column.
    pub open spec fn precedes(self, other: Position) -> bool {
        self.row < other.row || (self.row == other.row && self.column < other.column)
    }

    pub fn new(row: i32, column: i32) -> (p: Position)
        ensures
            p == (Position { row, column }),
    {
        Position { row, column }
    }

    /// The cell at `row`, `column` of a grid.
    pub fn at(row: usize, column: usize) -> (p: Position)
        requires
            row <= i32::MAX,
            column <= i32::MAX,
        ensures
            p.row == row,
            p.column == column,
    {
        Position { row: row as i32, column: column as i32 }
    }

    pub fn up(&self) -> (p: Position)
        requires
            self.row > i32::MIN,
        ensures
            p == self.shift(-1, 0),
    {
        Position { row: self.row - 1, column: self.column }
    }

    pub fn down(&self) -> (p: Position)
        requires
            self.row < i32::MAX,
        ensures
            p == self.shift(1, 0),
    {
        Position { row: self.row + 1, column: self.column }
    }

    pub fn left(&self) -> (p: Position)
        requires
            self.column > i32::MIN,
        ensures
            p == self.shift(0, -1),
    {
        Position { row: self.row, column: self.column - 1 }
    }

    pub fn right(&self) -> (p: Position)
        requires
            self.column < i32::MAX,
        ensures
            p == self.shift(0, 1),
    {
        Position { row: self.row, column: self.column + 1 }
    }

    /// The four orthogonal neighbours: up, down, left, right.
    pub fn adjacent(&self) -> (neighbours: Vec<Position>)
        requires
            i32::MIN < self.row < i32::MAX,
            i32::MIN < self.column < i32::MAX,
        ensures
            neighbours@ == seq![
                self.shift(-1, 0),
                self.shift(1, 0),
                self.shift(0, -1),
                self.shift(0, 1),
            ],
            forall|q: Position| neighbours@.contains(q) <==> self.adjacent_to(q),
            in_turn(*self, neighbours@),
    {
        let mut neighbours: Vec<Position> = Vec::with_capacity(4);
        neighbours.push(self.up());
        neighbours.push(self.down());
        neighbours.push(self.left());
        neighbours.push(self.right());
        proof {
            let s = neighbours@;
            assert(s =~= seq![
                self.shift(-1, 0),
                self.shift(1, 0),
                self.shift(0, -1),
                self.shift(0, 1),
            ]);
            assert forall|q: Position| s.contains(q) <==> self.adjacent_to(q) by {
                if self.adjacent_to(q) {
                    if q == self.shift(-1, 0) {
                        assert(s[0] == q);
                    } else if q == self.shift(1, 0) {
                        assert(s[1] == q);
                    } else if q == self.shift(0, -1) {
                        assert(s[2] == q);
                    } else {
                        assert(s[3] == q);
                    }
                }
            }
        }
        neighbours
    }

    pub fn is_adjacent_to(&self, other: &Position) -> (b: bool)
        ensures
            b == self.adjacent_to(*other),
    {
        let dr: i64 = self.row as i64 - other.row as i64;
        let dc: i64 = self.column as i64 - other.column as i64;
        (dc == 0 && (dr == 1 || dr == -1)) || (dr == 0 && (dc == 1 || dc == -1))
    }

    /// Mirrors `p` through this half-step center.
    pub fn mirror_position(&self, p: &Position) -> (m: Position)
        requires
            i32::MIN <= self.row - p.row <= i32::MAX,
            i32::MIN <= self.column - p.column <= i32::MAX,
        ensures
            m == self.mirrored(*p),
    {
        Position { row: self.row - p.row, column: self.column - p.column }
    }

    /// Whether this position comes before `other` in row-major order.
    pub fn is_before(&self, other: &Position) -> (b: bool)
        ensures
            b == self.precedes(*other),
    {
        self.row < other.row || (self.row == other.row && self.column < other.column)
    }

    /// The index `row * width + column` of this cell in a row-major grid.
    pub fn to_index(&self, width: usize) -> (index: usize)
        requires
            0 <= self.row,
            0 <= self.column,
            self.row * width + self.column <= usize::MAX,
        ensures
            index == self.row * width + self.column,
    {
        let row: usize = self.row as usize;
        let column: usize = self.column as usize;
        assert(row * width <= row * width + column) by (nonlinear_arith)
            requires
                column >= 0,
        ;
        row * width + column
    }

    /// Classifies this half-step center by the parity of its coordinates.
    pub fn get_center_placement(&self) -> (placement: CenterPlacement)
        ensures
            placement.around(*self),
    {
        let row: i32 = half_floor(self.row);
        let column: i32 = half_floor(self.column);
        let cell = Position { row, column };
        let row_even: bool = 2 * row == self.row;
        let column_even: bool = 2 * column == self.column;
        if row_even && column_even {
            CenterPlacement::Center(cell)
        } else if row_even {
            CenterPlacement::VerticalBorder(Border::right(cell))
        } else if column_even {
            CenterPlacement::HorizontalBorder(Border::down(cell))
        } else {
            CenterPlacement::Intersection(
                Rectangle {
                    min_row: row,
                    max_row: row + 2,
                    min_column: column,
                    max_column: column + 2,
                },
            )
        }
    }
}

/// The positions of `s`, neighbours of `p`, stand in the order up, down, left,
/// right, each once.
pub open spec fn in_turn(p: Position, s: Seq<Position>) -> bool {
    forall|i: int, j: int|
        0 <= i < j < s.len() ==> p.turn_of(#[trigger] s[i]) < p.turn_of(#[trigger] s[j])
}

/// The footprint of a half-step center: the cells that surround it.
pub open spec fn footprint_of(center: Position) -> Set<Position> {
    Set::new(|p: Position| center.surrounds(p))
}

impl Ordered for Position {
    open spec fn before(self, other: Self) -> bool {
        self.precedes(other)
    }

    proof fn lemma_order(a: Self, b: Self, c: Self) {
    }

    fn comes_before(&self, other: &Self) -> (r: bool) {
        self.is_before(other)
    }

    fn equals(&self, other: &Self) -> (r: bool) {
        *self == *other
    }
}

impl CenterPlacement {
    /// This placement is the one of the half-step center `center`.
    pub open spec fn around(self, center: Position) -> bool {
        let cell = Position {
            row: half_floor_spec(center.row as int) as i32,
            column: half_floor_spec(center.column as int) as i32,
        };
        match self {
            CenterPlacement::Center(p) => {
                center.row % 2 == 0 && center.column % 2 == 0 && p == cell
            },
            CenterPlacement::VerticalBorder(b) => {
                center.row % 2 == 0 && center.column % 2 != 0 && b.first() == cell && b.second()
                    == cell.shift(0, 1)
            },
            CenterPlacement::HorizontalBorder(b) => {
                center.row % 2 != 0 && center.column % 2 == 0 && b.first() == cell && b.second()
                    == cell.shift(1, 0)
            },
            CenterPlacement::Intersection(r) => {
                center.row % 2 != 0 && center.column % 2 != 0 && r.min_row == cell.row && r.max_row
                    == cell.row + 2 && r.min_column == cell.column && r.max_column == cell.column
                    + 2
            },
        }
    }

    /// The footprint: the one, two or four cells around the center, in row-major
    /// order.
    pub fn get_positions(&self, center: &Position) -> (cells: Vec<Position>)
        requires
            self.around(*center),
        ensures
            forall|p: Position| cells@.contains(p) <==> center.surrounds(p),
            cells@.no_duplicates(),
            1 <= cells@.len() <= 4,
            forall|i: int, j: int| 0 <= i < j < cells@.len() ==> cells@[i].precedes(cells@[j]),
    {
        let mut cells: Vec<Position> = Vec::with_capacity(4);
        match self {
            CenterPlacement::Center(p) => {
                cells.push(*p);
            },
            CenterPlacement::VerticalBorder(b) => {
                cells.push(b.p1());
                cells.push(b.p2());
            },
            CenterPlacement::HorizontalBorder(b) => {
                cells.push(b.p1());
                cells.push(b.p2());
            },
            CenterPlacement::Intersection(r) => {
                cells.push(Position { row: r.min_row, column: r.min_column });
                cells.push(Position { row: r.min_row, column: r.min_column + 1 });
                cells.push(Position { row: r.min_row + 1, column: r.min_column });
                cells.push(Position { row: r.min_row + 1, column: r.min_column + 1 });
            },
        }
        proof {
            let s = cells@;
            assert forall|p: Position| s.contains(p) <==> center.surrounds(p) by {
                if center.surrounds(p) {
                    assert(s[0] == p || (s.len() > 1 && s[1] == p) || (s.len() > 2 && (s[2] == p
                        || s[3] == p)));
                }
            }
        }
        cells
    }
}

} // verus!

//! Boards: the walls that a player has set, and what is wrong with them.
use vstd::prelude::*;

use crate::border::Border;
use crate::galaxy::{center_of, valid_shape, Galaxy};
use crate::objective::{centers_inside, has_center, GalaxyCenter, InvalidInput, Objective};
use crate::ordered::{ascending, Ordered, SortedSet};
use crate::position::{Position, COORDINATE_LIMIT};
use crate::reach::{
    distances,
    lemma_prefix_contains,
    lemma_push_contains,
    lemma_reachable_back,
    lemma_reachable_chain,
    lemma_within_bounded,
    reachable,
    within,
    Terrain,
};

verus! {

/// A wall stands between the neighbouring positions `a` and `b`.
pub open spec fn walled(walls: Set<Border>, a: Position, b: Position) -> bool {
    walls.contains(Border::between(a, b))
}

/// The wall `b` is loose at one of its ends: it ends away from the frame where no
/// other wall meets it. A vertical wall is loose at its upper end where that end
/// is not in the first row and none of the three other walls at that corner
/// stands, and likewise at its lower end; a horizontal wall, at its left and
/// right end.
pub open spec fn dangling(walls: Set<Border>, rows: int, columns: int, b: Border) -> bool {
    let p1 = b.first();
    let p2 = b.second();
    if p1.row == p2.row {
        let p1_up = p1.shift(-1, 0);
        let p2_up = p2.shift(-1, 0);
        let p1_down = p1.shift(1, 0);
        let p2_down = p2.shift(1, 0);
        (p1.row != 0 && !walled(walls, p1, p1_up) && !walled(walls, p1_up, p2_up) && !walled(
            walls,
            p2_up,
            p2,
        )) || (p1.row != rows - 1 && !walled(walls, p1, p1_down) && !walled(
            walls,
            p1_down,
            p2_down,
        ) && !walled(walls, p2_down, p2))
    } else {
        let p1_left = p1.shift(0, -1);
        let p2_left = p2.shift(0, -1);
        let p1_right = p1.shift(0, 1);
        let p2_right = p2.shift(0, 1);
        (p1.column != 0 && !walled(walls, p1, p1_left) && !walled(walls, p1_left, p2_left)
            && !walled(walls, p2_left, p2)) || (p1.column != columns - 1 && !walled(
            walls,
            p1,
            p1_right,
        ) && !walled(walls, p1_right, p2_right) && !walled(walls, p2_right, p2))
    }
}

/// A wall stands between two of the cells that surround the half-step center
/// `center`.
pub open spec fn center_cut(walls: Set<Border>, center: Position) -> bool {
    exists|a: Position, b: Position|
        center.surrounds(a) && center.surrounds(b) && a.adjacent_to(b) && walls.contains(
            #[trigger] Border::between(a, b),
        )
}

/// The first of the cells that surround the half-step center `center`.
pub open spec fn anchor_of(center: Position) -> Position {
    Position {
        row: crate::position::half_floor_spec(center.row as int) as i32,
        column: crate::position::half_floor_spec(center.column as int) as i32,
    }
}

/// A board: a grid of cells and the walls that stand between them and around
/// them.
#[derive(Clone, Debug, PartialEq, Eq)]
pub struct Board {
    width: usize,
    height: usize,
    borders: SortedSet<Border>,
}

impl View for Board {
    type V = Set<Border>;

    closed spec fn view(&self) -> Set<Border> {
        self.borders@
    }
}

impl Terrain for Board {
    open spec fn valid(&self) -> bool {
        self.wf()
    }

    open spec fn cells(&self) -> Set<Position> {
        self.grid()
    }

    open spec fn walls(&self) -> Set<Border> {
        self@
    }

    proof fn lemma_terrain(&self) {
        self.lemma_grid();
    }

    fn steps_from(&self, from: &Position) -> (targets: Vec<Position>) {
        let around = from.adjacent();
        let mut targets: Vec<Position> = Vec::with_capacity(4);
        let mut i: usize = 0;
        while i < around.len()
            invariant
                self.wf(),
                i <= around.len() == 4,
                forall|q: Position| #[trigger] around@.contains(q) <==> from.adjacent_to(q),
                forall|q: Position|
                    #![trigger targets@.contains(q)]
                    targets@.contains(q) <==> around@.subrange(0, i as int).contains(q)
                        && self.grid().contains(q) && !self@.contains(Border::between(*from, q)),
            decreases around.len() - i,
        {
            let q = around[i];
            proof {
                assert(around@.contains(q));
                lemma_prefix_contains(around@, i as int);
                lemma_push_contains(targets@, q);
            }
            if self.contains(&q) && !self.is_wall(*from, q) {
                targets.push(q);
            }
            i += 1;
        }
        assert(around@.subrange(0, 4) =~= around@);
        targets
    }
}

impl Board {
    /// The number of columns.
    pub closed spec fn columns(&self) -> int {
        self.width as int
    }

    /// The number of rows.
    pub closed spec fn rows(&self) -> int {
        self.height as int
    }

    /// The walls in ascending order.
    pub closed spec fn wall_seq(&self) -> Seq<Border> {
        self.borders.elements()
    }

    /// The walls are held in order.
    pub closed spec fn ordered(&self) -> bool {
        self.borders.wf()
    }

    /// `p` is a cell of the board.
    pub open spec fn inside(&self, p: Position) -> bool {
        0 <= p.row < self.rows() && 0 <= p.column < self.columns()
    }

    /// The cells of the board.
    pub open spec fn grid(&self) -> Set<Position> {
        Set::new(|p: Position| self.inside(p))
    }

    /// The board is well formed: its walls are held in order, and it is small
    /// enough for its cells to be positions.
    pub open spec fn wf(&self) -> bool {
        &&& self.ordered()
        &&& 0 <= self.rows() <= COORDINATE_LIMIT
        &&& 0 <= self.columns() <= COORDINATE_LIMIT
        &&& forall|b: Border|
            #[trigger] self@.contains(b) ==> b.first().in_range() && b.second().in_range()
    }

    /// `b` is one of the walls around the grid.
    pub open spec fn on_frame(&self, b: Border) -> bool {
        let p1 = b.first();
        let p2 = b.second();
        ||| (p1.row == p2.row && 0 <= p1.row < self.rows() && (p1.column == -1 || p1.column
            == self.columns() - 1) && p2.column == p1.column + 1)
        ||| (p1.column == p2.column && 0 <= p1.column < self.columns() && (p1.row == -1 || p1.row
            == self.rows() - 1) && p2.row == p1.row + 1)
    }

    /// The cells from which open moves lead to `p`, with `p` itself: the region
    /// of the board that `p` lies in.
    pub open spec fn region(&self, p: Position) -> Set<Position> {
        Set::new(|q: Position| reachable(self.grid(), self@, set![p], q))
    }

    /// The grid is a finite set of cells within the coordinate limit.
    pub proof fn lemma_grid(&self)
        requires
            self.wf(),
        ensures
            self.grid().finite(),
            forall|p: Position| #[trigger] self.grid().contains(p) ==> p.in_range(),
    {
        let all = crate::rectangle::Rectangle {
            min_row: 0,
            max_row: self.rows() as i32,
            min_column: 0,
            max_column: self.columns() as i32,
        };
        crate::universe::lemma_rectangle_finite(all);
        assert(self.grid() =~= all.cells());
    }

    /// `wall_seq` lists the walls, each once.
    pub proof fn lemma_walls(&self)
        requires
            self.ordered(),
        ensures
            ascending(self.wall_seq()),
            self.wall_seq().no_duplicates(),
            self.wall_seq().to_set() == self@,
    {
        self.borders.lemma_size();
    }

    /// The board of `width` columns and `height` rows with no walls but the frame
    /// around it.
    pub fn new(width: usize, height: usize) -> (board: Board)
        requires
            width <= COORDINATE_LIMIT,
            height <= COORDINATE_LIMIT,
        ensures
            board.wf(),
            board.columns() == width,
            board.rows() == height,
            forall|b: Border| board@.contains(b) <==> b.well_formed() && board.on_frame(b),
            board.tidy(),
    {
        let mut borders: SortedSet<Border> = SortedSet::new();
        let ghost shape = Board { width, height, borders };
        let mut row: usize = 0;
        while row < height
            invariant
                row <= height <= COORDINATE_LIMIT,
                width <= COORDINATE_LIMIT,
                shape.columns() == width,
                shape.rows() == height,
                borders.wf(),
                forall|b: Border|
                    #![trigger borders@.contains(b)]
                    borders@.contains(b) <==> b.well_formed() && shape.on_frame(b) && b.first().row
                        == b.second().row && b.first().row < row,
            decreases height - row,
        {
            let left = Border::left(Position::at(row, 0));
            let right = Border::left(Position::at(row, width));
            let ghost before = borders@;
            borders.insert(left);
            borders.insert(right);
            proof {
                left.lemma_well_formed();
                right.lemma_well_formed();
                assert(borders@ == before.insert(left).insert(right));
                assert(shape.on_frame(left) && shape.on_frame(right));
                assert forall|b: Border|
                    #![trigger borders@.contains(b)]
                    borders@.contains(b) <==> b.well_formed() && shape.on_frame(b)
                        && b.first().row == b.second().row && b.first().row < row + 1 by {
                    if b.well_formed() && shape.on_frame(b) && b.first().row == b.second().row
                        && b.first().row == row {
                        if b.first().column == -1 {
                            Border::lemma_same(b, left);
                        } else {
                            Border::lemma_same(b, right);
                        }
                    }
                }
            }
            row += 1;
        }
        let mut column: usize = 0;
        while column < width
            invariant
                column <= width <= COORDINATE_LIMIT,
                height <= COORDINATE_LIMIT,
                shape.columns() == width,
                shape.rows() == height,
                borders.wf(),
                forall|b: Border|
                    #![trigger borders@.contains(b)]
                    borders@.contains(b) <==> b.well_formed() && shape.on_frame(b) && (
                    b.first().row == b.second().row || b.first().column < column),
            decreases width - column,
        {
            let top = Border::up(Position::at(0, column));
            let bottom = Border::up(Position::at(height, column));
            let ghost before = borders@;
            borders.insert(top);
            borders.insert(bottom);
            proof {
                top.lemma_well_formed();
                bottom.lemma_well_formed();
                assert(borders@ == before.insert(top).insert(bottom));
                assert(shape.on_frame(top) && shape.on_frame(bottom));
                assert forall|b: Border|
                    #![trigger borders@.contains(b)]
                    borders@.contains(b) <==> b.well_formed() && shape.on_frame(b) && (
                    b.first().row == b.second().row || b.first().column < column + 1) by {
                    b.lemma_well_formed();
                    if b.well_formed() && shape.on_frame(b) && b.first().row != b.second().row
                        && b.first().column == column {
                        if b.first().row == -1 {
                            Border::lemma_same(b, top);
                        } else {
                            Border::lemma_same(b, bottom);
                        }
                    }
                }
            }
            column += 1;
        }
        let board = Board { width, height, borders };
        proof {
            assert forall|b: Border| board@.contains(b) <==> b.well_formed() && board.on_frame(
                b,
            ) by {
                b.lemma_well_formed();
                assert(board.on_frame(b) == shape.on_frame(b));
            }
            assert forall|b: Border| #[trigger] board@.contains(b) implies board.drawable(b) by {
                b.lemma_well_formed();
                assert(board.on_frame(b));
            }
        }
        board
    }

    /// The board of the given walls, just wide and high enough to hold the
    /// larger position of each.
    pub fn from_iter(walls: &Vec<Border>) -> (board: Board)
        requires
            forall|i: int|
                0 <= i < walls.len() ==> (#[trigger] walls[i]).first().in_range()
                    && walls[i].second().in_range(),
        ensures
            board.wf(),
            board@ == walls@.to_set(),
            forall|i: int|
                0 <= i < walls.len() ==> (#[trigger] walls[i]).second().row <= board.rows()
                    && walls[i].second().column <= board.columns(),
            board.rows() == 0 || exists|i: int|
                0 <= i < walls.len() && (#[trigger] walls[i]).second().row == board.rows(),
            board.columns() == 0 || exists|i: int|
                0 <= i < walls.len() && (#[trigger] walls[i]).second().column == board.columns(),
    {
        let mut borders: SortedSet<Border> = SortedSet::new();
        let mut width: usize = 0;
        let mut height: usize = 0;
        let mut i: usize = 0;
        while i < walls.len()
            invariant
                i <= walls.len(),
                borders.wf(),
                width <= COORDINATE_LIMIT,
                height <= COORDINATE_LIMIT,
                forall|k: int|
                    0 <= k < walls.len() ==> (#[trigger] walls[k]).first().in_range()
                        && walls[k].second().in_range(),
                borders@ == walls@.subrange(0, i as int).to_set(),
                forall|k: int|
                    0 <= k < i ==> (#[trigger] walls[k]).second().row <= height
                        && walls[k].second().column <= width,
                height == 0 || exists|k: int|
                    0 <= k < i && (#[trigger] walls[k]).second().row == height,
                width == 0 || exists|k: int|
                    0 <= k < i && (#[trigger] walls[k]).second().column == width,
            decreases walls.len() - i,
        {
            let wall = walls[i];
            let p2 = wall.p2();
            proof {
                lemma_prefix_contains(walls@, i as int);
                if height != 0 {
                    let k = choose|k: int|
                        0 <= k < i && (#[trigger] walls[k]).second().row == height;
                    assert(walls[k].second().row == height);
                }
                if width != 0 {
                    let k = choose|k: int|
                        0 <= k < i && (#[trigger] walls[k]).second().column == width;
                    assert(walls[k].second().column == width);
                }
            }
            if p2.row > 0 && p2.row as usize > height {
                height = p2.row as usize;
                assert(walls[i as int].second().row == height);
            }
            if p2.column > 0 && p2.column as usize > width {
                width = p2.column as usize;
                assert(walls[i as int].second().column == width);
            }
            borders.insert(wall);
            i += 1;
            assert(borders@ =~= walls@.subrange(0, i as int).to_set());
        }
        assert(walls@.subrange(0, walls.len() as int) =~= walls@);
        let board = Board { width, height, borders };
        proof {
            assert forall|b: Border| #[trigger] board@.contains(b) implies b.first().in_range()
                && b.second().in_range() by {
                let k = choose|k: int| 0 <= k < walls@.len() && walls@[k] == b;
                assert(walls[k].first().in_range());
            }
        }
        board
    }

    /// The board of the given size and walls.
    pub fn with_walls(width: usize, height: usize, walls: &Vec<Border>) -> (board: Board)
        requires
            width <= COORDINATE_LIMIT,
            height <= COORDINATE_LIMIT,
            forall|i: int|
                0 <= i < walls.len() ==> (#[trigger] walls[i]).first().in_range()
                    && walls[i].second().in_range(),
        ensures
            board.wf(),
            board.columns() == width,
            board.rows() == height,
            board@ == walls@.to_set(),
    {
        let mut borders: SortedSet<Border> = SortedSet::new();
        let mut i: usize = 0;
        while i < walls.len()
            invariant
                i <= walls.len(),
                borders.wf(),
                borders@ == walls@.subrange(0, i as int).to_set(),
            decreases walls.len() - i,
        {
            proof {
                lemma_prefix_contains(walls@, i as int);
            }
            borders.insert(walls[i]);
            i += 1;
            assert(borders@ =~= walls@.subrange(0, i as int).to_set());
        }
        assert(walls@.subrange(0, walls.len() as int) =~= walls@);
        let board = Board { width, height, borders };
        proof {
            assert forall|b: Border| #[trigger] board@.contains(b) implies b.first().in_range()
                && b.second().in_range() by {
                let k = choose|k: int| 0 <= k < walls@.len() && walls@[k] == b;
                assert(walls[k].first().in_range());
            }
        }
        board
    }

    pub fn get_width(&self) -> (width: usize)
        ensures
            width == self.columns(),
    {
        self.width
    }

    pub fn get_height(&self) -> (height: usize)
        ensures
            height == self.rows(),
    {
        self.height
    }

    /// Whether `position` is a cell of the board.
    pub fn contains(&self, position: &Position) -> (b: bool)
        ensures
            b == self.inside(*position),
    {
        position.row >= 0 && (position.row as usize) < self.height && position.column >= 0 && (
        position.column as usize) < self.width
    }

    /// The cells of the board, row by row.
    pub fn get_positions(&self) -> (cells: Vec<Position>)
        requires
            self.wf(),
        ensures
            forall|p: Position| cells@.contains(p) <==> self.inside(p),
            ascending(cells@),
    {
        let mut cells: Vec<Position> = Vec::new();
        let mut row: usize = 0;
        while row < self.height
            invariant
                self.wf(),
                row <= self.height,
                forall|p: Position|
                    #![trigger cells@.contains(p)]
                    cells@.contains(p) <==> self.inside(p) && p.row < row,
                ascending(cells@),
            decreases self.height - row,
        {
            let mut column: usize = 0;
            while column < self.width
                invariant
                    self.wf(),
                    row < self.height,
                    column <= self.width,
                    forall|p: Position|
                        #![trigger cells@.contains(p)]
                        cells@.contains(p) <==> self.inside(p) && (p.row < row || (p.row == row
                            && p.column < column)),
                    ascending(cells@),
                decreases self.width - column,
            {
                let p = Position::at(row, column);
                let ghost before = cells@;
                proof {
                    lemma_push_contains(before, p);
                }
                cells.push(p);
                proof {
                    assert forall|i: int, j: int| 0 <= i < j < cells@.len() implies cells@[i].before(
                        cells@[j],
                    ) by {
                        if j < before.len() {
                            assert(before[i].before(before[j]));
                        } else {
                            assert(before.contains(before[i]));
                        }
                    }
                }
                column += 1;
            }
            row += 1;
        }
        cells
    }

    /// Whether the wall `border` stands.
    pub fn is_active(&self, border: &Border) -> (b: bool)
        requires
            self.wf(),
        ensures
            b == self@.contains(*border),
    {
        self.borders.contains(border)
    }

    /// Whether both cells of `border` are cells of the board.
    pub fn is_border_within_bounds(&self, border: &Border) -> (b: bool)
        ensures
            b == (self.inside(border.first()) && self.inside(border.second())),
    {
        self.contains(&border.p1()) && self.contains(&border.p2())
    }

    /// Sets the wall `border`, if it lies within the board.
    pub fn add_border(&mut self, border: Border)
        requires
            old(self).wf(),
        ensures
            final(self).wf(),
            final(self).rows() == old(self).rows(),
            final(self).columns() == old(self).columns(),
            final(self)@ == (if old(self).inside(border.first()) && old(self).inside(
                border.second(),
            ) {
                old(self)@.insert(border)
            } else {
                old(self)@
            }),
    {
        if self.is_border_within_bounds(&border) {
            self.borders.insert(border);
            proof {
                assert forall|b: Border| #[trigger] self@.contains(b) implies b.first().in_range()
                    && b.second().in_range() by {
                    if b != border {
                        assert(old(self)@.contains(b));
                    }
                }
            }
        }
    }

    /// Takes the wall `border` away, if it lies within the board.
    pub fn remove_border(&mut self, border: &Border)
        requires
            old(self).wf(),
        ensures
            final(self).wf(),
            final(self).rows() == old(self).rows(),
            final(self).columns() == old(self).columns(),
            final(self)@ == (if old(self).inside(border.first()) && old(self).inside(
                border.second(),
            ) {
                old(self)@.remove(*border)
            } else {
                old(self)@
            }),
    {
        if self.is_border_within_bounds(border) {
            self.borders.remove(border);
            proof {
                assert forall|b: Border| #[trigger] self@.contains(b) implies b.first().in_range()
                    && b.second().in_range() by {
                    assert(old(self)@.contains(b));
                }
            }
        }
    }

    /// Sets the wall between the neighbouring cells `p1` and `p2`. Returns
    /// whether it did not stand before.
    pub fn add_wall(&mut self, p1: Position, p2: Position) -> (added: bool)
        requires
            old(self).wf(),
            p1.adjacent_to(p2),
            old(self).inside(p1),
            old(self).inside(p2),
        ensures
            final(self).wf(),
            final(self).rows() == old(self).rows(),
            final(self).columns() == old(self).columns(),
            final(self)@ == old(self)@.insert(Border::between(p1, p2)),
            added == !walled(old(self)@, p1, p2),
            old(self).tidy() ==> final(self).tidy(),
    {
        let border = Border::new(p1, p2);
        let added = self.borders.insert(border);
        proof {
            border.lemma_well_formed();
            if old(self).tidy() {
                assert forall|b: Border| #[trigger] self@.contains(b) implies self.drawable(b) by {
                    if b != border {
                        assert(old(self)@.contains(b));
                        assert(old(self).drawable(b));
                    }
                }
                assert forall|b: Border|
                    b.well_formed() && #[trigger] self.on_frame(b) implies self@.contains(b) by {
                    assert(old(self).on_frame(b));
                }
            }
            assert forall|b: Border| #[trigger] self@.contains(b) implies b.first().in_range()
                && b.second().in_range() by {
                if b != border {
                    assert(old(self)@.contains(b));
                }
            }
        }
        added
    }

    /// Takes the wall between the neighbouring cells `p1` and `p2` away. Returns
    /// whether it stood.
    pub fn remove_wall(&mut self, p1: Position, p2: Position) -> (removed: bool)
        requires
            old(self).wf(),
            p1.adjacent_to(p2),
            old(self).inside(p1),
            old(self).inside(p2),
        ensures
            final(self).wf(),
            final(self).rows() == old(self).rows(),
            final(self).columns() == old(self).columns(),
            final(self)@ == old(self)@.remove(Border::between(p1, p2)),
            removed == walled(old(self)@, p1, p2),
            old(self).tidy() ==> final(self).tidy(),
    {
        let border = Border::new(p1, p2);
        let removed = self.borders.remove(&border);
        proof {
            border.lemma_well_formed();
            if old(self).tidy() {
                assert forall|b: Border| #[trigger] self@.contains(b) implies self.drawable(b) by {
                    assert(old(self)@.contains(b));
                    assert(old(self).drawable(b));
                }
                assert forall|b: Border|
                    b.well_formed() && #[trigger] self.on_frame(b) implies self@.contains(b) by {
                    assert(old(self).on_frame(b));
                    assert(old(self)@.contains(b));
                }
            }
            assert forall|b: Border| #[trigger] self@.contains(b) implies b.first().in_range()
                && b.second().in_range() by {
                assert(old(self)@.contains(b));
            }
        }
        removed
    }

    /// Whether a wall stands between the neighbouring positions `p1` and `p2`.
    pub fn is_wall(&self, p1: Position, p2: Position) -> (b: bool)
        requires
            self.wf(),
            p1.adjacent_to(p2),
        ensures
            b == walled(self@, p1, p2),
    {
        let border = Border::new(p1, p2);
        self.borders.contains(&border)
    }

    /// Sets the wall between the neighbouring cells `p1` and `p2` where it does
    /// not stand, and takes it away where it does. Returns whether it stands
    /// afterwards.
    pub fn toggle_wall(&mut self, p1: Position, p2: Position) -> (stands: bool)
        requires
            old(self).wf(),
            p1.adjacent_to(p2),
            old(self).inside(p1),
            old(self).inside(p2),
        ensures
            final(self).wf(),
            final(self).rows() == old(self).rows(),
            final(self).columns() == old(self).columns(),
            stands == !walled(old(self)@, p1, p2),
            old(self).tidy() ==> final(self).tidy(),
            final(self)@ == (if stands {
                old(self)@.insert(Border::between(p1, p2))
            } else {
                old(self)@.remove(Border::between(p1, p2))
            }),
    {
        if self.is_wall(p1, p2) {
            self.remove_wall(p1, p2);
            false
        } else {
            self.add_wall(p1, p2);
            true
        }
    }

    /// The walls in ascending order.
    pub fn get_borders(&self) -> (walls: Vec<Border>)
        ensures
            walls@ == self.wall_seq(),
    {
        self.borders.to_vec()
    }

    /// The walls between two cells of the board, in ascending order.
    pub fn get_interior_borders(&self) -> (walls: Vec<Border>)
        requires
            self.wf(),
        ensures
            forall|b: Border|
                walls@.contains(b) <==> self@.contains(b) && self.inside(b.first())
                    && self.inside(b.second()),
            ascending(walls@),
    {
        let mut walls: Vec<Border> = Vec::new();
        let mut i: usize = 0;
        proof {
            self.lemma_walls();
        }
        while i < self.borders.len()
            invariant
                self.wf(),
                i <= self.wall_seq().len(),
                ascending(self.wall_seq()),
                self.wall_seq().to_set() == self@,
                forall|b: Border|
                    #![trigger walls@.contains(b)]
                    walls@.contains(b) <==> self.wall_seq().subrange(0, i as int).contains(b)
                        && self.inside(b.first()) && self.inside(b.second()),
                ascending(walls@),
            decreases self.wall_seq().len() - i,
        {
            let border = self.borders.get(i);
            let ghost before = walls@;
            proof {
                lemma_prefix_contains(self.wall_seq(), i as int);
                lemma_push_contains(before, border);
            }
            if self.is_border_within_bounds(&border) {
                walls.push(border);
                proof {
                    assert forall|a: int, b: int| 0 <= a < b < walls@.len() implies walls@[a].before(
                        walls@[b],
                    ) by {
                        if b < before.len() {
                            assert(before[a].before(before[b]));
                        } else {
                            let earlier = before[a];
                            assert(before.contains(earlier));
                            let k = choose|k: int|
                                0 <= k < i && self.wall_seq().subrange(0, i as int)[k] == earlier;
                            assert(self.wall_seq()[k].before(self.wall_seq()[i as int]));
                        }
                    }
                }
            }
            i += 1;
        }
        proof {
            assert(self.wall_seq().subrange(0, self.wall_seq().len() as int) =~= self.wall_seq());
            assert forall|b: Border|
                walls@.contains(b) <==> self@.contains(b) && self.inside(b.first())
                    && self.inside(b.second()) by {
                assert(self.wall_seq().to_set().contains(b) <==> self.wall_seq().contains(b));
            }
        }
        walls
    }

    /// Whether a wall cuts through the cells around the half-step center
    /// `center`.
    pub fn is_center_cut(&self, center: &Position) -> (b: bool)
        requires
            self.wf(),
            -2 * COORDINATE_LIMIT <= center.row <= 2 * COORDINATE_LIMIT,
            -2 * COORDINATE_LIMIT <= center.column <= 2 * COORDINATE_LIMIT,
        ensures
            b == center_cut(self@, *center),
    {
        let footprint = center.get_center_placement().get_positions(center);
        let mut i: usize = 0;
        while i < footprint.len()
            invariant
                self.wf(),
                i <= footprint.len(),
                -2 * COORDINATE_LIMIT <= center.row <= 2 * COORDINATE_LIMIT,
                -2 * COORDINATE_LIMIT <= center.column <= 2 * COORDINATE_LIMIT,
                forall|p: Position| footprint@.contains(p) <==> center.surrounds(p),
                forall|k: int, m: int|
                    0 <= k < i && 0 <= m < footprint@.len() && footprint@[k].adjacent_to(
                        footprint@[m],
                    ) ==> !self@.contains(#[trigger] Border::between(footprint@[k], footprint@[m])),
            decreases footprint.len() - i,
        {
            let a = footprint[i];
            assert(footprint@.contains(a));
            let mut j: usize = 0;
            while j < footprint.len()
                invariant
                    self.wf(),
                    i < footprint.len(),
                    j <= footprint.len(),
                    a == footprint@[i as int],
                    forall|p: Position| footprint@.contains(p) <==> center.surrounds(p),
                    forall|m: int|
                        0 <= m < j && a.adjacent_to(footprint@[m]) ==> !self@.contains(
                            #[trigger] Border::between(a, footprint@[m]),
                        ),
                decreases footprint.len() - j,
            {
                let b = footprint[j];
                assert(footprint@.contains(b));
                if a.is_adjacent_to(&b) && self.is_wall(a, b) {
                    return true;
                }
                j += 1;
            }
            i += 1;
        }
        proof {
            if center_cut(self@, *center) {
                let (a, b) = choose|a: Position, b: Position|
                    center.surrounds(a) && center.surrounds(b) && a.adjacent_to(b)
                        && self@.contains(#[trigger] Border::between(a, b));
                assert(footprint@.contains(a) && footprint@.contains(b));
                let k = choose|k: int| 0 <= k < footprint@.len() && footprint@[k] == a;
                let m = choose|m: int| 0 <= m < footprint@.len() && footprint@[m] == b;
                assert(!self@.contains(Border::between(footprint@[k], footprint@[m])));
            }
        }
        false
    }

    /// Whether the wall `border` is loose at one of its ends.
    pub fn is_dangling(&self, border: &Border) -> (b: bool)
        requires
            self.wf(),
            border.first().in_range(),
            border.second().in_range(),
        ensures
            b == dangling(self@, self.rows(), self.columns(), *border),
    {
        let p1 = border.p1();
        let p2 = border.p2();
        proof {
            border.lemma_well_formed();
        }
        if border.is_vertical() {
            if p1.row != 0 {
                let p1_up = p1.up();
                let p2_up = p2.up();
                if !self.is_wall(p1, p1_up) && !self.is_wall(p1_up, p2_up) && !self.is_wall(
                    p2_up,
                    p2,
                ) {
                    return true;
                }
            }
            if p1.row as i64 != self.height as i64 - 1 {
                let p1_down = p1.down();
                let p2_down = p2.down();
                if !self.is_wall(p1, p1_down) && !self.is_wall(p1_down, p2_down) && !self.is_wall(
                    p2_down,
                    p2,
                ) {
                    return true;
                }
            }
        } else {
            if p1.column != 0 {
                let p1_left = p1.left();
                let p2_left = p2.left();
                if !self.is_wall(p1, p1_left) && !self.is_wall(p1_left, p2_left) && !self.is_wall(
                    p2_left,
                    p2,
                ) {
                    return true;
                }
            }
            if p1.column as i64 != self.width as i64 - 1 {
                let p1_right = p1.right();
                let p2_right = p2.right();
                if !self.is_wall(p1, p1_right) && !self.is_wall(p1_right, p2_right)
                    && !self.is_wall(p2_right, p2) {
                    return true;
                }
            }
        }
        false
    }

    /// For every cell but those of the last column, whether a wall stands on its
    /// right side: the entry at `[row][column]` says so of the cell in that row
    /// and column.
    pub fn get_vertical_borders(&self) -> (matrix: Vec<Vec<bool>>)
        requires
            self.wf(),
            self.columns() >= 1,
        ensures
            matrix@.len() == self.rows(),
            forall|r: int|
                0 <= r < self.rows() ==> (#[trigger] matrix@[r])@.len() == self.columns() - 1,
            forall|r: int, c: int|
                0 <= r < self.rows() && 0 <= c < self.columns() - 1 ==> (#[trigger] matrix@[r]@[c])
                    == self@.contains(
                    Border::of(
                        Position { row: r as i32, column: c as i32 },
                        Position { row: r as i32, column: (c + 1) as i32 },
                    ),
                ),
    {
        let mut matrix: Vec<Vec<bool>> = Vec::new();
        let mut row: usize = 0;
        while row < self.height
            invariant
                self.wf(),
                self.columns() >= 1,
                row <= self.height,
                matrix@.len() == row,
                forall|r: int| 0 <= r < row ==> (#[trigger] matrix@[r])@.len() == self.columns() - 1,
                forall|r: int, c: int|
                    0 <= r < row && 0 <= c < self.columns() - 1 ==> (#[trigger] matrix@[r]@[c])
                        == self@.contains(
                        Border::of(
                            Position { row: r as i32, column: c as i32 },
                            Position { row: r as i32, column: (c + 1) as i32 },
                        ),
                    ),
            decreases self.height - row,
        {
            let mut line: Vec<bool> = Vec::new();
            let mut column: usize = 0;
            while column < self.width - 1
                invariant
                    self.wf(),
                    self.columns() >= 1,
                    row < self.height,
                    column <= self.width - 1,
                    line@.len() == column,
                    forall|c: int|
                        0 <= c < column ==> #[trigger] line@[c] == self@.contains(
                            Border::of(
                                Position { row: row as i32, column: c as i32 },
                                Position { row: row as i32, column: (c + 1) as i32 },
                            ),
                        ),
                decreases self.width - 1 - column,
            {
                line.push(self.is_active(&Border::right(Position::at(row, column))));
                column += 1;
            }
            matrix.push(line);
            row += 1;
        }
        matrix
    }

    /// For every cell but those of the last row, whether a wall stands below it:
    /// the entry at `[row][column]` says so of the cell in that row and column.
    pub fn get_horizontal_borders(&self) -> (matrix: Vec<Vec<bool>>)
        requires
            self.wf(),
            self.rows() >= 1,
        ensures
            matrix@.len() == self.rows() - 1,
            forall|r: int|
                0 <= r < self.rows() - 1 ==> (#[trigger] matrix@[r])@.len() == self.columns(),
            forall|r: int, c: int|
                0 <= r < self.rows() - 1 && 0 <= c < self.columns() ==> (#[trigger] matrix@[r]@[c])
                    == self@.contains(
                    Border::of(
                        Position { row: r as i32, column: c as i32 },
                        Position { row: (r + 1) as i32, column: c as i32 },
                    ),
                ),
    {
        let mut matrix: Vec<Vec<bool>> = Vec::new();
        let mut row: usize = 0;
        while row < self.height - 1
            invariant
                self.wf(),
                self.rows() >= 1,
                row <= self.height - 1,
                matrix@.len() == row,
                forall|r: int| 0 <= r < row ==> (#[trigger] matrix@[r])@.len() == self.columns(),
                forall|r: int, c: int|
                    0 <= r < row && 0 <= c < self.columns() ==> (#[trigger] matrix@[r]@[c])
                        == self@.contains(
                        Border::of(
                            Position { row: r as i32, column: c as i32 },
                            Position { row: (r + 1) as i32, column: c as i32 },
                        ),
                    ),
            decreases self.height - 1 - row,
        {
            let mut line: Vec<bool> = Vec::new();
            let mut column: usize = 0;
            while column < self.width
                invariant
                    self.wf(),
                    self.rows() >= 1,
                    row < self.height - 1,
                    column <= self.width,
                    line@.len() == column,
                    forall|c: int|
                        0 <= c < column ==> #[trigger] line@[c] == self@.contains(
                            Border::of(
                                Position { row: row as i32, column: c as i32 },
                                Position { row: (row + 1) as i32, column: c as i32 },
                            ),
                        ),
                decreases self.width - column,
            {
                line.push(self.is_active(&Border::down(Position::at(row, column))));
                column += 1;
            }
            matrix.push(line);
            row += 1;
        }
        matrix
    }
}

/// What is wrong with a board, measured against an objective.
#[derive(Clone, Debug, PartialEq, Eq)]
pub struct BoardError {
    /// The walls that are loose at one end.
    pub dangling_borders: SortedSet<Border>,
    /// The centers whose region has not the size that the objective gives.
    pub incorrect_galaxy_sizes: SortedSet<Position>,
    /// The cells that lie in the region of no center.
    pub centerless_cells: SortedSet<Position>,
    /// The centers that a wall cuts through.
    pub cut_centers: SortedSet<Position>,
    /// The centers whose region is no valid galaxy around them.
    pub asymmetric_centers: SortedSet<Position>,
}

impl BoardError {
    /// The five sets are held in order.
    pub open spec fn wf(&self) -> bool {
        &&& self.dangling_borders.wf()
        &&& self.incorrect_galaxy_sizes.wf()
        &&& self.centerless_cells.wf()
        &&& self.cut_centers.wf()
        &&& self.asymmetric_centers.wf()
    }

    /// Nothing is wrong.
    pub open spec fn error_free(&self) -> bool {
        &&& self.dangling_borders@ == Set::<Border>::empty()
        &&& self.incorrect_galaxy_sizes@ == Set::<Position>::empty()
        &&& self.centerless_cells@ == Set::<Position>::empty()
        &&& self.cut_centers@ == Set::<Position>::empty()
        &&& self.asymmetric_centers@ == Set::<Position>::empty()
    }

    /// Whether nothing is wrong.
    pub fn is_error_free(&self) -> (b: bool)
        ensures
            b == self.error_free(),
    {
        self.dangling_borders.is_empty() && self.incorrect_galaxy_sizes.is_empty()
            && self.centerless_cells.is_empty() && self.cut_centers.is_empty()
            && self.asymmetric_centers.is_empty()
    }
}

impl Board {
    /// The region of a cell holds the cell, and only cells.
    pub proof fn lemma_region(&self, p: Position)
        requires
            self.inside(p),
        ensures
            self.region(p).contains(p),
            self.region(p).subset_of(self.grid()),
    {
        assert(within(self.grid(), self@, set![p], 0).contains(p));
        assert forall|q: Position| self.region(p).contains(q) implies self.grid().contains(q) by {
            let n = choose|n: nat| within(self.grid(), self@, set![p], n).contains(q);
            lemma_within_bounded(self.grid(), self@, set![p], n);
        }
    }

    /// A cell in the region of another has the same region.
    pub proof fn lemma_same_region(&self, p: Position, q: Position)
        requires
            self.inside(p),
            self.region(p).contains(q),
        ensures
            self.region(q) == self.region(p),
    {
        let cells = self.grid();
        let walls = self@;
        lemma_reachable_back(cells, walls, p, q);
        assert forall|x: Position| self.region(q).contains(x) <==> self.region(p).contains(x) by {
            if self.region(q).contains(x) {
                lemma_reachable_chain(cells, walls, set![p], q, x);
            }
            if self.region(p).contains(x) {
                lemma_reachable_chain(cells, walls, set![q], p, x);
            }
        }
        assert(self.region(q) =~= self.region(p));
    }

    /// The region of the cell `p`: the cells that open moves lead to from `p`,
    /// where a move is open between neighbouring cells without a wall between
    /// them.
    pub fn region_of(&self, p: &Position) -> (region: Galaxy)
        requires
            self.wf(),
            self.inside(*p),
        ensures
            region.wf(),
            region@ == self.region(*p),
    {
        let mut seeds: Vec<Position> = Vec::new();
        seeds.push(*p);
        proof {
            assert(seeds@ =~= seq![*p]);
            assert(seeds@.to_set() =~= set![*p]) by {
                assert forall|q: Position| seeds@.to_set().contains(q) <==> q == *p by {
                    if q == *p {
                        assert(seeds@[0] == q);
                    }
                }
            }
            self.lemma_grid();
        }
        let map = distances(self, &seeds);
        let mut region = Galaxy::new();
        let mut i: usize = 0;
        proof {
            map.lemma_size();
            self.lemma_region(*p);
        }
        while i < map.len()
            invariant
                self.wf(),
                map.wf(),
                i <= map.key_seq().len(),
                map@.dom() == map.key_seq().to_set(),
                forall|q: Position| map@.contains_key(q) <==> self.region(*p).contains(q),
                self.region(*p).subset_of(self.grid()),
                forall|q: Position| #[trigger] self.grid().contains(q) ==> q.in_range(),
                region.wf(),
                region@ == map.key_seq().subrange(0, i as int).to_set(),
            decreases map.key_seq().len() - i,
        {
            let q = map.key_at(i);
            proof {
                assert(self.region(*p).contains(q));
                assert(self.grid().contains(q));
                lemma_prefix_contains(map.key_seq(), i as int);
            }
            region.add_position(q);
            i += 1;
            assert(region@ =~= map.key_seq().subrange(0, i as int).to_set());
        }
        proof {
            assert(map.key_seq().subrange(0, map.key_seq().len() as int) =~= map.key_seq());
            assert(region@ =~= self.region(*p)) by {
                assert forall|q: Position| region@.contains(q) <==> self.region(*p).contains(q) by {
                    assert(map@.dom().contains(q) <==> map@.contains_key(q));
                }
            }
        }
        region
    }

    /// The regions into which the walls part the board, each as a galaxy, in the
    /// order of their first cells.
    pub fn get_galaxies(&self) -> (galaxies: Vec<Galaxy>)
        requires
            self.wf(),
        ensures
            forall|i: int|
                0 <= i < galaxies@.len() ==> (#[trigger] galaxies@[i]).wf() && exists|p: Position|
                    self.inside(p) && galaxies@[i]@ == #[trigger] self.region(p),
            forall|p: Position|
                self.inside(p) ==> exists|i: int|
                    0 <= i < galaxies@.len() && (#[trigger] galaxies@[i])@ == self.region(p),
            forall|i: int, j: int|
                0 <= i < j < galaxies@.len() ==> (#[trigger] galaxies@[i])@.disjoint(
                    (#[trigger] galaxies@[j])@,
                ),
    {
        let cells = self.get_positions();
        let mut galaxies: Vec<Galaxy> = Vec::new();
        let mut assigned: SortedSet<Position> = SortedSet::new();
        let mut i: usize = 0;
        while i < cells.len()
            invariant
                self.wf(),
                i <= cells.len(),
                forall|p: Position| cells@.contains(p) <==> self.inside(p),
                assigned.wf(),
                forall|k: int|
                    0 <= k < galaxies@.len() ==> (#[trigger] galaxies@[k]).wf() && exists|
                        p: Position,
                    |
                        self.inside(p) && galaxies@[k]@ == #[trigger] self.region(p),
                forall|q: Position|
                    #![trigger assigned@.contains(q)]
                    assigned@.contains(q) <==> exists|k: int|
                        0 <= k < galaxies@.len() && (#[trigger] galaxies@[k])@.contains(q),
                forall|k: int| 0 <= k < i ==> assigned@.contains(#[trigger] cells@[k]),
                forall|a: int, b: int|
                    0 <= a < b < galaxies@.len() ==> (#[trigger] galaxies@[a])@.disjoint(
                        (#[trigger] galaxies@[b])@,
                    ),
            decreases cells.len() - i,
        {
            let p = cells[i];
            assert(cells@.contains(p));
            if !assigned.contains(&p) {
                let region = self.region_of(&p);
                let members = region.get_positions();
                let ghost before = assigned@;
                let ghost found = galaxies@;
                proof {
                    region.lemma_elements();
                    self.lemma_region(p);
                    assert forall|q: Position| region@.contains(q) implies !before.contains(q) by {
                        if before.contains(q) {
                            let k = choose|k: int|
                                0 <= k < found.len() && (#[trigger] found[k])@.contains(q);
                            let seed = choose|seed: Position|
                                self.inside(seed) && found[k]@ == #[trigger] self.region(seed);
                            self.lemma_same_region(p, q);
                            self.lemma_same_region(seed, q);
                            assert(found[k]@.contains(p));
                        }
                    }
                }
                let mut j: usize = 0;
                while j < members.len()
                    invariant
                        j <= members.len(),
                        assigned.wf(),
                        members@.to_set() == region@,
                        forall|q: Position|
                            #![trigger assigned@.contains(q)]
                            assigned@.contains(q) <==> before.contains(q) || members@.subrange(
                                0,
                                j as int,
                            ).contains(q),
                    decreases members.len() - j,
                {
                    proof {
                        lemma_prefix_contains(members@, j as int);
                    }
                    assigned.insert(members[j]);
                    j += 1;
                }
                galaxies.push(region);
                proof {
                    assert(members@.subrange(0, members@.len() as int) =~= members@);
                    let n = found.len() as int;
                    assert(galaxies@[n]@ == self.region(p));
                    assert forall|k: int| 0 <= k < galaxies@.len() implies (
                    #[trigger] galaxies@[k]).wf() && exists|p: Position|
                        self.inside(p) && galaxies@[k]@ == #[trigger] self.region(p) by {
                        if k < n {
                            assert(galaxies@[k] == found[k]);
                            let seed = choose|seed: Position|
                                self.inside(seed) && found[k]@ == #[trigger] self.region(seed);
                            assert(galaxies@[k]@ == self.region(seed));
                        }
                    }
                    assert forall|q: Position|
                        #![trigger assigned@.contains(q)]
                        assigned@.contains(q) <==> exists|k: int|
                            0 <= k < galaxies@.len() && (#[trigger] galaxies@[k])@.contains(q) by {
                        assert(members@.to_set().contains(q) <==> members@.contains(q));
                        if before.contains(q) {
                            let k = choose|k: int|
                                0 <= k < found.len() && (#[trigger] found[k])@.contains(q);
                            assert(galaxies@[k]@.contains(q));
                        }
                        if region@.contains(q) {
                            assert(galaxies@[n]@.contains(q));
                        }
                        if exists|k: int|
                            0 <= k < galaxies@.len() && (#[trigger] galaxies@[k])@.contains(q) {
                            let k = choose|k: int|
                                0 <= k < galaxies@.len() && (#[trigger] galaxies@[k])@.contains(q);
                            if k < n {
                                assert(found[k]@.contains(q));
                                assert(before.contains(q));
                            }
                        }
                    }
                    assert forall|a: int, b: int| 0 <= a < b < galaxies@.len() implies (
                    #[trigger] galaxies@[a])@.disjoint((#[trigger] galaxies@[b])@) by {
                        if b < n {
                            assert(found[a]@.disjoint(found[b]@));
                        } else {
                            assert forall|q: Position|
                                !(galaxies@[a]@.contains(q) && galaxies@[b]@.contains(q)) by {
                                if galaxies@[a]@.contains(q) {
                                    assert(found[a]@.contains(q));
                                    assert(before.contains(q));
                                }
                            }
                        }
                    }
                    assert(assigned@.contains(p));
                }
            }
            i += 1;
        }
        proof {
            assert forall|p: Position| self.inside(p) implies exists|i: int|
                0 <= i < galaxies@.len() && (#[trigger] galaxies@[i])@ == self.region(p) by {
                assert(cells@.contains(p));
                let m = choose|m: int| 0 <= m < cells@.len() && cells@[m] == p;
                assert(assigned@.contains(cells@[m]));
                let k = choose|k: int|
                    0 <= k < galaxies@.len() && (#[trigger] galaxies@[k])@.contains(p);
                let seed = choose|seed: Position|
                    self.inside(seed) && galaxies@[k]@ == #[trigger] self.region(seed);
                self.lemma_same_region(seed, p);
            }
        }
        galaxies
    }

    /// The walls that are loose at one end, in ascending order.
    pub fn get_dangling_borders(&self) -> (loose: Vec<Border>)
        requires
            self.wf(),
        ensures
            forall|b: Border|
                loose@.contains(b) <==> self@.contains(b) && dangling(
                    self@,
                    self.rows(),
                    self.columns(),
                    b,
                ),
            ascending(loose@),
    {
        let mut loose: Vec<Border> = Vec::new();
        let mut i: usize = 0;
        proof {
            self.lemma_walls();
        }
        while i < self.borders.len()
            invariant
                self.wf(),
                i <= self.wall_seq().len(),
                self.wall_seq().to_set() == self@,
                ascending(self.wall_seq()),
                ascending(loose@),
                forall|a: int, j: int|
                    #![trigger loose@[a], self.wall_seq()[j]]
                    0 <= a < loose@.len() && i <= j < self.wall_seq().len() ==> loose@[a].before(
                        self.wall_seq()[j],
                    ),
                forall|b: Border|
                    #![trigger loose@.contains(b)]
                    loose@.contains(b) <==> self.wall_seq().subrange(0, i as int).contains(b)
                        && dangling(self@, self.rows(), self.columns(), b),
            decreases self.wall_seq().len() - i,
        {
            let border = self.borders.get(i);
            proof {
                assert(self@.contains(border));
                lemma_prefix_contains(self.wall_seq(), i as int);
                lemma_push_contains(loose@, border);
            }
            if self.is_dangling(&border) {
                loose.push(border);
            }
            i += 1;
        }
        proof {
            assert(self.wall_seq().subrange(0, self.wall_seq().len() as int) =~= self.wall_seq());
            assert forall|b: Border|
                loose@.contains(b) <==> self@.contains(b) && dangling(
                    self@,
                    self.rows(),
                    self.columns(),
                    b,
                ) by {
                assert(self.wall_seq().to_set().contains(b) <==> self.wall_seq().contains(b));
            }
        }
        loose
    }

    /// The first of the cells around the half-step center `center`.
    fn anchor(center: &Position) -> (p: Position)
        ensures
            p == anchor_of(*center),
            center.surrounds(p),
    {
        Position {
            row: crate::position::half_floor(center.row),
            column: crate::position::half_floor(center.column),
        }
    }

    /// The region of `center` falls short of the objective: it has not the size
    /// that is asked for.
    pub open spec fn wrong_size(&self, center: GalaxyCenter) -> bool {
        center.size is Some && self.region(anchor_of(center.position)).len() != center.size->0
    }

    /// The region of the half-step center `center` is no valid galaxy around
    /// it.
    pub open spec fn askew(&self, center: Position) -> bool {
        center_of(self.region(anchor_of(center))) != center || !valid_shape(
            self.region(anchor_of(center)),
        )
    }

    /// The cell `q` lies in the region of one of the centers.
    pub open spec fn covered(&self, centers: Set<GalaxyCenter>, q: Position) -> bool {
        exists|c: GalaxyCenter|
            centers.contains(c) && (#[trigger] self.region(anchor_of(c.position))).contains(q)
    }

    /// What is wrong with the board, measured against `objective`: the walls that
    /// are loose at one end; the centers that a wall cuts through; the centers
    /// whose region has not the size that the objective gives; the centers whose
    /// region is no valid galaxy around them; and the cells that lie in the
    /// region of no center. The region of a center is the one that the first of
    /// the cells around it lies in. The objective is refused where one of the
    /// cells around one of its centers lies outside the board.
    pub fn compute_error(&self, objective: &Objective) -> (result: Result<
        BoardError,
        InvalidInput,
    >)
        requires
            self.wf(),
            objective.wf(),
        ensures
            match result {
                Ok(error) => {
                    &&& centers_inside(objective.centers(), self.rows(), self.columns())
                    &&& error.wf()
                    &&& forall|b: Border|
                        #![trigger error.dangling_borders@.contains(b)]
                        error.dangling_borders@.contains(b) <==> self@.contains(b) && dangling(
                            self@,
                            self.rows(),
                            self.columns(),
                            b,
                        )
                    &&& forall|p: Position|
                        #![trigger error.cut_centers@.contains(p)]
                        error.cut_centers@.contains(p) <==> has_center(objective.centers(), p)
                            && center_cut(self@, p)
                    &&& forall|p: Position|
                        #![trigger error.incorrect_galaxy_sizes@.contains(p)]
                        error.incorrect_galaxy_sizes@.contains(p) <==> exists|c: GalaxyCenter|
                            objective.centers().contains(c) && c.position == p
                                && #[trigger] self.wrong_size(c)
                    &&& forall|p: Position|
                        #![trigger error.asymmetric_centers@.contains(p)]
                        error.asymmetric_centers@.contains(p) <==> has_center(
                            objective.centers(),
                            p,
                        ) && self.askew(p)
                    &&& forall|q: Position|
                        #![trigger error.centerless_cells@.contains(q)]
                        error.centerless_cells@.contains(q) <==> self.inside(q) && !self.covered(
                            objective.centers(),
                            q,
                        )
                },
                Err(reason) => reason == InvalidInput::CenterOutOfBounds && !centers_inside(
                    objective.centers(),
                    self.rows(),
                    self.columns(),
                ),
            },
    {
        if !objective.fits(self.width, self.height) {
            return Err(InvalidInput::CenterOutOfBounds);
        }
        let loose = self.get_dangling_borders();
        let mut dangling_borders: SortedSet<Border> = SortedSet::new();
        let mut i: usize = 0;
        while i < loose.len()
            invariant
                i <= loose.len(),
                dangling_borders.wf(),
                dangling_borders@ == loose@.subrange(0, i as int).to_set(),
            decreases loose.len() - i,
        {
            proof {
                lemma_prefix_contains(loose@, i as int);
            }
            dangling_borders.insert(loose[i]);
            i += 1;
            assert(dangling_borders@ =~= loose@.subrange(0, i as int).to_set());
        }
        proof {
            assert(loose@.subrange(0, loose@.len() as int) =~= loose@);
            assert forall|b: Border|
                dangling_borders@.contains(b) <==> self@.contains(b) && dangling(
                    self@,
                    self.rows(),
                    self.columns(),
                    b,
                ) by {
                assert(loose@.to_set().contains(b) <==> loose@.contains(b));
            }
        }
        let centers = objective.get_centers();
        proof {
            objective.lemma_listed();
        }
        let (cut_centers, incorrect_galaxy_sizes, asymmetric_centers, covered) =
            self.judge_centers(objective, &centers);
        let centerless_cells = self.uncovered(objective, &covered);
        let error = BoardError {
            dangling_borders,
            incorrect_galaxy_sizes,
            centerless_cells,
            cut_centers,
            asymmetric_centers,
        };
        proof {
            assert(error.wf());
            assert(centers_inside(objective.centers(), self.rows(), self.columns()));
            assert forall|p: Position|
                error.incorrect_galaxy_sizes@.contains(p) <==> exists|c: GalaxyCenter|
                    objective.centers().contains(c) && c.position == p
                        && #[trigger] self.wrong_size(c) by {}
            assert forall|p: Position|
                error.asymmetric_centers@.contains(p) <==> has_center(objective.centers(), p)
                    && self.askew(p) by {}
            assert forall|q: Position|
                error.centerless_cells@.contains(q) <==> self.inside(q) && !self.covered(
                    objective.centers(),
                    q,
                ) by {}
        }
        Ok(error)
    }

    /// The cells of the board that are not in `covered`.
    fn uncovered(&self, objective: &Objective, covered: &SortedSet<Position>) -> (cells: SortedSet<
        Position,
    >)
        requires
            self.wf(),
            covered.wf(),
            forall|q: Position|
                covered@.contains(q) <==> self.covered(objective.centers(), q),
        ensures
            cells.wf(),
            forall|q: Position|
                #![trigger cells@.contains(q)]
                cells@.contains(q) <==> self.inside(q) && !self.covered(objective.centers(), q),
    {
        let all = self.get_positions();
        let mut cells: SortedSet<Position> = SortedSet::new();
        let mut i: usize = 0;
        while i < all.len()
            invariant
                i <= all.len(),
                covered.wf(),
                cells.wf(),
                forall|q: Position| all@.contains(q) <==> self.inside(q),
                forall|q: Position|
                    #![trigger cells@.contains(q)]
                    cells@.contains(q) <==> all@.subrange(0, i as int).contains(q)
                        && !covered@.contains(q),
            decreases all.len() - i,
        {
            let q = all[i];
            proof {
                lemma_prefix_contains(all@, i as int);
            }
            if !covered.contains(&q) {
                cells.insert(q);
            }
            i += 1;
        }
        assert(all@.subrange(0, all@.len() as int) =~= all@);
        cells
    }

    /// Judges every center: whether a wall cuts through it, whether its region
    /// has the size asked for, and whether its region is a valid galaxy around
    /// it. Also collects the cells of the regions of all centers.
    fn judge_centers(&self, objective: &Objective, centers: &Vec<GalaxyCenter>) -> (found: (
        SortedSet<Position>,
        SortedSet<Position>,
        SortedSet<Position>,
        SortedSet<Position>,
    ))
        requires
            self.wf(),
            centers@.to_set() == objective.centers(),
            centers_inside(objective.centers(), self.rows(), self.columns()),
        ensures
            found.0.wf(),
            found.1.wf(),
            found.2.wf(),
            found.3.wf(),
            forall|p: Position|
                #![trigger found.0@.contains(p)]
                found.0@.contains(p) <==> has_center(objective.centers(), p) && center_cut(
                    self@,
                    p,
                ),
            forall|p: Position|
                #![trigger found.1@.contains(p)]
                found.1@.contains(p) <==> exists|c: GalaxyCenter|
                    objective.centers().contains(c) && c.position == p
                        && #[trigger] self.wrong_size(c),
            forall|p: Position|
                #![trigger found.2@.contains(p)]
                found.2@.contains(p) <==> has_center(objective.centers(), p) && self.askew(p),
            forall|q: Position|
                #![trigger found.3@.contains(q)]
                found.3@.contains(q) <==> self.covered(objective.centers(), q),
    {
        let mut cut: SortedSet<Position> = SortedSet::new();
        let mut sizes: SortedSet<Position> = SortedSet::new();
        let mut askew: SortedSet<Position> = SortedSet::new();
        let mut covered: SortedSet<Position> = SortedSet::new();
        let ghost all = objective.centers();
        let mut i: usize = 0;
        while i < centers.len()
            invariant
                self.wf(),
                i <= centers.len(),
                all == objective.centers(),
                centers@.to_set() == all,
                centers_inside(all, self.rows(), self.columns()),
                cut.wf(),
                sizes.wf(),
                askew.wf(),
                covered.wf(),
                forall|p: Position|
                    #![trigger cut@.contains(p)]
                    cut@.contains(p) <==> center_cut(self@, p) && exists|k: int|
                        0 <= k < i && (#[trigger] centers@[k]).position == p,
                forall|p: Position|
                    #![trigger sizes@.contains(p)]
                    sizes@.contains(p) <==> exists|k: int|
                        0 <= k < i && (#[trigger] centers@[k]).position == p && self.wrong_size(
                            centers@[k],
                        ),
                forall|p: Position|
                    #![trigger askew@.contains(p)]
                    askew@.contains(p) <==> self.askew(p) && exists|k: int|
                        0 <= k < i && (#[trigger] centers@[k]).position == p,
                forall|q: Position|
                    #![trigger covered@.contains(q)]
                    covered@.contains(q) <==> exists|k: int|
                        0 <= k < i && self.region(
                            anchor_of((#[trigger] centers@[k]).position),
                        ).contains(q),
            decreases centers.len() - i,
        {
            let center = centers[i];
            let anchor = Board::anchor(&center.position);
            proof {
                assert(centers@.to_set().contains(center));
                assert(all.contains(center));
                assert(center.position.surrounds(anchor));
                assert(self.inside(anchor));
            }
            let region = self.region_of(&anchor);
            let ghost old_cut = cut@;
            let ghost old_sizes = sizes@;
            let ghost old_askew = askew@;
            let ghost old_covered = covered@;
            if self.is_center_cut(&center.position) {
                cut.insert(center.position);
            }
            match center.size {
                Some(size) => {
                    if region.size() != size {
                        sizes.insert(center.position);
                    }
                },
                None => {},
            }
            if region.center() != center.position || !region.is_valid() {
                askew.insert(center.position);
            }
            let members = region.get_positions();
            proof {
                region.lemma_elements();
            }
            let mut j: usize = 0;
            while j < members.len()
                invariant
                    j <= members.len(),
                    covered.wf(),
                    members@.to_set() == region@,
                    forall|q: Position|
                        #![trigger covered@.contains(q)]
                        covered@.contains(q) <==> old_covered.contains(q) || members@.subrange(
                            0,
                            j as int,
                        ).contains(q),
                decreases members.len() - j,
            {
                proof {
                    lemma_prefix_contains(members@, j as int);
                }
                covered.insert(members[j]);
                j += 1;
            }
            proof {
                assert(members@.subrange(0, members@.len() as int) =~= members@);
                assert forall|p: Position|
                    #![trigger cut@.contains(p)]
                    cut@.contains(p) <==> center_cut(self@, p) && exists|k: int|
                        0 <= k < i + 1 && (#[trigger] centers@[k]).position == p by {
                    if old_cut.contains(p) {
                        let k = choose|k: int|
                            0 <= k < i && (#[trigger] centers@[k]).position == p;
                        assert(centers@[k].position == p);
                    }
                    if p == center.position {
                        assert(centers@[i as int].position == p);
                    }
                    if center_cut(self@, p) && exists|k: int|
                        0 <= k < i + 1 && (#[trigger] centers@[k]).position == p {
                        let k = choose|k: int|
                            0 <= k < i + 1 && (#[trigger] centers@[k]).position == p;
                        if k < i {
                            assert(old_cut.contains(p));
                        }
                    }
                }
                assert forall|p: Position|
                    #![trigger sizes@.contains(p)]
                    sizes@.contains(p) <==> exists|k: int|
                        0 <= k < i + 1 && (#[trigger] centers@[k]).position == p
                            && self.wrong_size(centers@[k]) by {
                    if old_sizes.contains(p) {
                        let k = choose|k: int|
                            0 <= k < i && (#[trigger] centers@[k]).position == p
                                && self.wrong_size(centers@[k]);
                        assert(centers@[k].position == p);
                    }
                    if sizes@.contains(p) && !old_sizes.contains(p) {
                        assert(centers@[i as int].position == p && self.wrong_size(
                            centers@[i as int],
                        ));
                    }
                    if exists|k: int|
                        0 <= k < i + 1 && (#[trigger] centers@[k]).position == p
                            && self.wrong_size(centers@[k]) {
                        let k = choose|k: int|
                            0 <= k < i + 1 && (#[trigger] centers@[k]).position == p
                                && self.wrong_size(centers@[k]);
                        if k < i {
                            assert(old_sizes.contains(p));
                        }
                    }
                }
                assert forall|p: Position|
                    #![trigger askew@.contains(p)]
                    askew@.contains(p) <==> self.askew(p) && exists|k: int|
                        0 <= k < i + 1 && (#[trigger] centers@[k]).position == p by {
                    if old_askew.contains(p) {
                        let k = choose|k: int|
                            0 <= k < i && (#[trigger] centers@[k]).position == p;
                        assert(centers@[k].position == p);
                    }
                    if p == center.position {
                        assert(centers@[i as int].position == p);
                    }
                    if self.askew(p) && exists|k: int|
                        0 <= k < i + 1 && (#[trigger] centers@[k]).position == p {
                        let k = choose|k: int|
                            0 <= k < i + 1 && (#[trigger] centers@[k]).position == p;
                        if k < i {
                            assert(old_askew.contains(p));
                        }
                    }
                }
                assert forall|q: Position|
                    #![trigger covered@.contains(q)]
                    covered@.contains(q) <==> exists|k: int|
                        0 <= k < i + 1 && self.region(
                            anchor_of((#[trigger] centers@[k]).position),
                        ).contains(q) by {
                    assert(members@.to_set().contains(q) <==> members@.contains(q));
                    if old_covered.contains(q) {
                        let k = choose|k: int|
                            0 <= k < i && self.region(
                                anchor_of((#[trigger] centers@[k]).position),
                            ).contains(q);
                        assert(self.region(anchor_of(centers@[k].position)).contains(q));
                    }
                    if region@.contains(q) {
                        assert(self.region(anchor_of(centers@[i as int].position)).contains(q));
                    }
                    if exists|k: int|
                        0 <= k < i + 1 && self.region(
                            anchor_of((#[trigger] centers@[k]).position),
                        ).contains(q) {
                        let k = choose|k: int|
                            0 <= k < i + 1 && self.region(
                                anchor_of((#[trigger] centers@[k]).position),
                            ).contains(q);
                        if k < i {
                            assert(old_covered.contains(q));
                        }
                    }
                }
            }
            i += 1;
        }
        proof {
            assert forall|p: Position|
                cut@.contains(p) <==> has_center(all, p) && center_cut(self@, p) by {
                if cut@.contains(p) {
                    let k = choose|k: int| 0 <= k < i && (#[trigger] centers@[k]).position == p;
                    assert(centers@.to_set().contains(centers@[k]));
                }
                if has_center(all, p) {
                    let c = choose|c: GalaxyCenter| all.contains(c) && c.position == p;
                    assert(centers@.to_set().contains(c));
                    let k = choose|k: int| 0 <= k < centers@.len() && centers@[k] == c;
                    assert(centers@[k].position == p);
                }
            }
            assert forall|p: Position|
                sizes@.contains(p) <==> exists|c: GalaxyCenter|
                    all.contains(c) && c.position == p && #[trigger] self.wrong_size(c) by {
                if sizes@.contains(p) {
                    let k = choose|k: int|
                        0 <= k < i && (#[trigger] centers@[k]).position == p && self.wrong_size(
                            centers@[k],
                        );
                    assert(centers@.to_set().contains(centers@[k]));
                    assert(self.wrong_size(centers@[k]));
                }
                if exists|c: GalaxyCenter|
                    all.contains(c) && c.position == p && #[trigger] self.wrong_size(c) {
                    let c = choose|c: GalaxyCenter|
                        all.contains(c) && c.position == p && #[trigger] self.wrong_size(c);
                    assert(centers@.to_set().contains(c));
                    let k = choose|k: int| 0 <= k < centers@.len() && centers@[k] == c;
                    assert(centers@[k].position == p && self.wrong_size(centers@[k]));
                }
            }
            assert forall|p: Position|
                askew@.contains(p) <==> has_center(all, p) && self.askew(p) by {
                if askew@.contains(p) {
                    let k = choose|k: int| 0 <= k < i && (#[trigger] centers@[k]).position == p;
                    assert(centers@.to_set().contains(centers@[k]));
                }
                if has_center(all, p) {
                    let c = choose|c: GalaxyCenter| all.contains(c) && c.position == p;
                    assert(centers@.to_set().contains(c));
                    let k = choose|k: int| 0 <= k < centers@.len() && centers@[k] == c;
                    assert(centers@[k].position == p);
                }
            }
            assert forall|q: Position| covered@.contains(q) <==> self.covered(all, q) by {
                if covered@.contains(q) {
                    let k = choose|k: int|
                        0 <= k < i && self.region(
                            anchor_of((#[trigger] centers@[k]).position),
                        ).contains(q);
                    assert(centers@.to_set().contains(centers@[k]));
                    assert(all.contains(centers@[k]));
                    assert(self.region(anchor_of(centers@[k].position)).contains(q));
                }
                if self.covered(all, q) {
                    let c = choose|c: GalaxyCenter|
                        all.contains(c) && (#[trigger] self.region(
                            anchor_of(c.position),
                        )).contains(q);
                    assert(centers@.to_set().contains(c));
                    let k = choose|k: int| 0 <= k < centers@.len() && centers@[k] == c;
                    assert(self.region(anchor_of(centers@[k].position)).contains(q));
                }
            }
        }
        (cut, sizes, askew, covered)
    }
}

} // verus!

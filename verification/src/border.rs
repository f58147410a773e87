//! The edge between two orthogonally adjacent cells.
use vstd::prelude::*;

use crate::ordered::Ordered;
use crate::position::Position;

verus! {

/// The unit wall segment between two adjacent positions, held with the smaller
/// position (in row-major order) first.
#[derive(Clone, Copy, Debug, PartialEq, Eq, Structural, PartialOrd, Ord, Hash)]
pub struct Border {
    p1: Position,
    p2: Position,
}

impl Border {
    /// The smaller of the two positions.
    pub closed spec fn first(self) -> Position {
        self.p1
    }

    /// The larger of the two positions.
    pub closed spec fn second(self) -> Position {
        self.p2
    }

    /// The second position lies directly right of or directly below the first.
    #[verifier::type_invariant]
    pub closed spec fn well_formed(self) -> bool {
        self.p1.adjacent_to(self.p2) && self.p1.precedes(self.p2)
    }

    /// What being well formed means for the two positions.
    pub proof fn lemma_well_formed(self)
        ensures
            self.well_formed() <==> self.first().adjacent_to(self.second())
                && self.first().precedes(self.second()),
    {
    }

    /// The border that separates `a` and `b`, whichever way round they are given.
    pub open spec fn between(a: Position, b: Position) -> Border
        recommends
            a.adjacent_to(b),
    {
        if a.precedes(b) {
            Border::of(a, b)
        } else {
            Border::of(b, a)
        }
    }

    /// The border with the given first and second position.
    pub closed spec fn of(first: Position, second: Position) -> Border {
        Border { p1: first, p2: second }
    }

    /// This border is part of the frame of a grid of `rows` rows and `columns`
    /// columns: one of its positions is a cell of the grid, the other lies just
    /// outside.
    pub open spec fn frames(self, rows: int, columns: int) -> bool {
        let p1 = self.first();
        let p2 = self.second();
        ||| (p1.row == p2.row && 0 <= p1.row < rows && (p1.column == -1 || p1.column == columns
            - 1) && p2.column == p1.column + 1)
        ||| (p1.column == p2.column && 0 <= p1.column < columns && (p1.row == -1 || p1.row == rows
            - 1) && p2.row == p1.row + 1)
    }

    /// Borders order by their first position, then by their second.
    pub open spec fn precedes(self, other: Border) -> bool {
        self.first().precedes(other.first()) || (self.first() == other.first()
            && self.second().precedes(other.second()))
    }

    /// A border is known by its two positions.
    pub proof fn lemma_of(first: Position, second: Position)
        ensures
            Border::of(first, second).first() == first,
            Border::of(first, second).second() == second,
    {
    }

    /// Two borders with the same positions are the same border.
    pub proof fn lemma_same(a: Border, b: Border)
        requires
            a.first() == b.first(),
            a.second() == b.second(),
        ensures
            a == b,
    {
    }

    /// The border between two adjacent positions.
    pub fn new(p1: Position, p2: Position) -> (border: Border)
        requires
            p1.adjacent_to(p2),
        ensures
            border == Border::between(p1, p2),
            border.first() == (if p1.precedes(p2) { p1 } else { p2 }),
            border.second() == (if p1.precedes(p2) { p2 } else { p1 }),
            border.well_formed(),
    {
        if p1.is_before(&p2) {
            Border { p1, p2 }
        } else {
            Border { p1: p2, p2: p1 }
        }
    }

    /// The border on the upper side of `p`.
    pub fn up(p: Position) -> (border: Border)
        requires
            p.row > i32::MIN,
        ensures
            border == Border::of(p.shift(-1, 0), p),
            border.first() == p.shift(-1, 0),
            border.second() == p,
            border.well_formed(),
    {
        Border { p1: p.up(), p2: p }
    }

    /// The border on the lower side of `p`.
    pub fn down(p: Position) -> (border: Border)
        requires
            p.row < i32::MAX,
        ensures
            border == Border::of(p, p.shift(1, 0)),
            border.first() == p,
            border.second() == p.shift(1, 0),
            border.well_formed(),
    {
        Border { p1: p, p2: p.down() }
    }

    /// The border on the left side of `p`.
    pub fn left(p: Position) -> (border: Border)
        requires
            p.column > i32::MIN,
        ensures
            border == Border::of(p.shift(0, -1), p),
            border.first() == p.shift(0, -1),
            border.second() == p,
            border.well_formed(),
    {
        Border { p1: p.left(), p2: p }
    }

    /// The border on the right side of `p`.
    pub fn right(p: Position) -> (border: Border)
        requires
            p.column < i32::MAX,
        ensures
            border == Border::of(p, p.shift(0, 1)),
            border.first() == p,
            border.second() == p.shift(0, 1),
            border.well_formed(),
    {
        Border { p1: p, p2: p.right() }
    }

    pub fn p1(&self) -> (p: Position)
        ensures
            p == self.first(),
            self.well_formed(),
    {
        proof {
            use_type_invariant(self);
        }
        self.p1
    }

    pub fn p2(&self) -> (p: Position)
        ensures
            p == self.second(),
            self.well_formed(),
    {
        proof {
            use_type_invariant(self);
        }
        self.p2
    }

    /// The segment runs vertically: it separates two cells of one row.
    pub fn is_vertical(&self) -> (b: bool)
        ensures
            b == (self.first().row == self.second().row),
            b == (self.first().column != self.second().column),
            self.well_formed(),
    {
        proof {
            use_type_invariant(self);
        }
        self.p1.row == self.p2.row
    }

    /// The segment runs horizontally: it separates two cells of one column.
    pub fn is_horizontal(&self) -> (b: bool)
        ensures
            b == (self.first().column == self.second().column),
            b == (self.first().row != self.second().row),
            self.well_formed(),
    {
        proof {
            use_type_invariant(self);
        }
        self.p1.column == self.p2.column
    }

    /// Whether this border comes before `other` in the order of borders.
    pub fn is_before(&self, other: &Border) -> (b: bool)
        ensures
            b == self.precedes(*other),
    {
        self.p1.is_before(&other.p1) || (self.p1 == other.p1 && self.p2.is_before(&other.p2))
    }
}

impl Ordered for Border {
    open spec fn before(self, other: Self) -> bool {
        self.precedes(other)
    }

    proof fn lemma_order(a: Self, b: Self, c: Self) {
    }

    fn comes_before(&self, other: &Self) -> (r: bool) {
        self.is_before(other)
    }

    fn equals(&self, other: &Self) -> (r: bool) {
        *self == *other
    }
}

} // verus!

//! Straight stretches of border between the galaxies of a universe.
use vstd::prelude::*;

use crate::position::Position;
use crate::universe::Universe;

verus! {

/// The lengths of the stretches of set flags, in order: one for each stretch
/// that an unset flag or the end closes. A stretch may be empty.
pub open spec fn stretches(flags: Seq<bool>) -> Seq<int>
    decreases flags.len(),
{
    if flags.len() == 0 {
        seq![0int]
    } else {
        let before = stretches(flags.drop_last());
        if flags.last() {
            before.update(before.len() - 1, before.last() + 1)
        } else {
            before.push(0)
        }
    }
}

/// The numbers of `lengths` are those of `stretches`.
pub open spec fn same_lengths(lengths: Seq<usize>, stretches: Seq<int>) -> bool {
    &&& lengths.len() == stretches.len()
    &&& forall|k: int| 0 <= k < lengths.len() ==> #[trigger] lengths[k] == stretches[k]
}

/// The lengths of the stretches of set flags.
pub fn stretch_lengths(flags: &Vec<bool>) -> (lengths: Vec<usize>)
    ensures
        same_lengths(lengths@, stretches(flags@)),
{
    let mut lengths: Vec<usize> = Vec::new();
    let mut current: usize = 0;
    let mut i: usize = 0;
    proof {
        assert(flags@.subrange(0, 0) =~= Seq::<bool>::empty());
    }
    while i < flags.len()
        invariant
            i <= flags.len(),
            current <= i,
            stretches(flags@.subrange(0, i as int)).len() == lengths@.len() + 1,
            forall|k: int|
                0 <= k < lengths@.len() ==> #[trigger] lengths@[k] == stretches(
                    flags@.subrange(0, i as int),
                )[k],
            stretches(flags@.subrange(0, i as int)).last() == current,
        decreases flags.len() - i,
    {
        let ghost prefix = flags@.subrange(0, i as int);
        let ghost next = flags@.subrange(0, i + 1);
        proof {
            assert(next.drop_last() =~= prefix);
            assert(next.last() == flags@[i as int]);
        }
        if flags[i] {
            current += 1;
        } else {
            lengths.push(current);
            current = 0;
        }
        i += 1;
    }
    proof {
        assert(flags@.subrange(0, flags@.len() as int) =~= flags@);
    }
    lengths.push(current);
    lengths
}

impl Universe {
    /// For every column, whether a border parts the cell in the row `row` from
    /// the cell above it.
    pub open spec fn parted_above(&self, row: int) -> Seq<bool> {
        Seq::new(
            self.columns() as nat,
            |c: int|
                !self.together(
                    Position { row: (row - 1) as i32, column: c as i32 },
                    Position { row: row as i32, column: c as i32 },
                ),
        )
    }

    /// For every row, whether a border parts the cell in the column `column`
    /// from the cell left of it.
    pub open spec fn parted_left(&self, column: int) -> Seq<bool> {
        Seq::new(
            self.rows() as nat,
            |r: int|
                !self.together(
                    Position { row: r as i32, column: (column - 1) as i32 },
                    Position { row: r as i32, column: column as i32 },
                ),
        )
    }

    /// The straight stretches of border along the line above the row `row`.
    pub fn stretches_above(&self, row: usize) -> (lengths: Vec<usize>)
        requires
            self.wf(),
            1 <= row < self.rows(),
        ensures
            same_lengths(lengths@, stretches(self.parted_above(row as int))),
    {
        let width = self.get_width();
        let mut flags: Vec<bool> = Vec::new();
        let mut column: usize = 0;
        while column < width
            invariant
                self.wf(),
                1 <= row < self.rows(),
                width == self.columns(),
                column <= width,
                flags@ == self.parted_above(row as int).subrange(0, column as int),
            decreases width - column,
        {
            let up = Position::at(row - 1, column);
            let down = Position::at(row, column);
            flags.push(!self.are_neighbours(&up, &down));
            proof {
                assert(flags@ =~= self.parted_above(row as int).subrange(0, column + 1));
            }
            column += 1;
        }
        proof {
            assert(flags@ =~= self.parted_above(row as int));
        }
        stretch_lengths(&flags)
    }

    /// The straight stretches of border along the line left of the column
    /// `column`.
    pub fn stretches_left(&self, column: usize) -> (lengths: Vec<usize>)
        requires
            self.wf(),
            1 <= column < self.columns(),
        ensures
            same_lengths(lengths@, stretches(self.parted_left(column as int))),
    {
        let height = self.get_height();
        let mut flags: Vec<bool> = Vec::new();
        let mut row: usize = 0;
        while row < height
            invariant
                self.wf(),
                1 <= column < self.columns(),
                height == self.rows(),
                row <= height,
                flags@ == self.parted_left(column as int).subrange(0, row as int),
            decreases height - row,
        {
            let left = Position::at(row, column - 1);
            let right = Position::at(row, column);
            flags.push(!self.are_neighbours(&left, &right));
            proof {
                assert(flags@ =~= self.parted_left(column as int).subrange(0, row + 1));
            }
            row += 1;
        }
        proof {
            assert(flags@ =~= self.parted_left(column as int));
        }
        stretch_lengths(&flags)
    }

    /// The straight stretches of border in the universe: those along the lines
    /// between the rows, from the top down, and then those along the lines
    /// between the columns, from the left.
    pub fn get_straight_borders(&self) -> (lines: Vec<Vec<usize>>)
        requires
            self.wf(),
            self.rows() >= 1,
        ensures
            lines@.len() == self.rows() - 1 + if self.columns() >= 1 {
                self.columns() - 1
            } else {
                0
            },
            forall|row: int|
                1 <= row < self.rows() ==> same_lengths(
                    (#[trigger] lines@[row - 1])@,
                    stretches(self.parted_above(row)),
                ),
            forall|column: int|
                1 <= column < self.columns() ==> same_lengths(
                    (#[trigger] lines@[self.rows() - 1 + column - 1])@,
                    stretches(self.parted_left(column)),
                ),
    {
        let height = self.get_height();
        let width = self.get_width();
        let mut lines: Vec<Vec<usize>> = Vec::new();
        let mut row: usize = 1;
        while row < height
            invariant
                self.wf(),
                height == self.rows(),
                1 <= row <= height,
                lines@.len() == row - 1,
                forall|r: int|
                    1 <= r < row ==> same_lengths(
                        (#[trigger] lines@[r - 1])@,
                        stretches(self.parted_above(r)),
                    ),
            decreases height - row,
        {
            let lengths = self.stretches_above(row);
            lines.push(lengths);
            row += 1;
        }
        let mut column: usize = 1;
        while column < width
            invariant
                self.wf(),
                height == self.rows(),
                height >= 1,
                width == self.columns(),
                1 <= column,
                width >= 1 ==> column <= width,
                width == 0 ==> column == 1,
                lines@.len() == height - 1 + column - 1,
                forall|r: int|
                    1 <= r < height ==> same_lengths(
                        (#[trigger] lines@[r - 1])@,
                        stretches(self.parted_above(r)),
                    ),
                forall|c: int|
                    1 <= c < column ==> same_lengths(
                        (#[trigger] lines@[height - 1 + c - 1])@,
                        stretches(self.parted_left(c)),
                    ),
            decreases width - column,
        {
            let lengths = self.stretches_left(column);
            lines.push(lengths);
            column += 1;
        }
        lines
    }
}

} // verus!

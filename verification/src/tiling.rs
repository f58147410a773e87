//! The decomposition of a galaxy into rectangles, largest first.
use vstd::prelude::*;
use vstd::set_lib::lemma_len_subset;

use crate::galaxy::{lemma_center_range, Galaxy};
use crate::position::{Position, COORDINATE_LIMIT};
use crate::rectangle::Rectangle;

verus! {

/// Every cell of `r` is one of `cells`.
pub open spec fn inside(r: Rectangle, cells: Set<Position>) -> bool {
    forall|p: Position| r.contains(p) ==> #[trigger] cells.contains(p)
}

/// No rectangle inside `cells` has more cells than `r`.
pub open spec fn largest_in(r: Rectangle, cells: Set<Position>) -> bool {
    forall|q: Rectangle| #[trigger] inside(q, cells) ==> q.cell_count() <= r.cell_count()
}

/// `cells` without the cells of the rectangles that follow the one at `index`.
pub open spec fn left_over(rectangles: Seq<Rectangle>, cells: Set<Position>, index: int) -> Set<
    Position,
> {
    Set::new(
        |p: Position|
            cells.contains(p) && forall|j: int|
                index < j < rectangles.len() ==> !(#[trigger] rectangles[j].contains(p)),
    )
}

/// The rectangles part `cells` among them: none is empty, each lies inside
/// `cells`, no two share a cell and every cell is in one of them.
pub open spec fn tiles(rectangles: Seq<Rectangle>, cells: Set<Position>) -> bool {
    &&& forall|i: int| 0 <= i < rectangles.len() ==> (#[trigger] rectangles[i]).cell_count() > 0
    &&& forall|i: int| 0 <= i < rectangles.len() ==> inside(#[trigger] rectangles[i], cells)
    &&& forall|i: int, j: int, p: Position|
        0 <= i < j < rectangles.len() && #[trigger] rectangles[i].contains(p) ==> !(
        #[trigger] rectangles[j].contains(p))
    &&& forall|p: Position|
        cells.contains(p) ==> exists|i: int|
            0 <= i < rectangles.len() && #[trigger] rectangles[i].contains(p)
}

/// The rectangles were taken greedily, the last one first: each is a largest one
/// inside what those after it left of `cells`.
pub open spec fn greedy(rectangles: Seq<Rectangle>, cells: Set<Position>) -> bool {
    forall|i: int|
        0 <= i < rectangles.len() ==> largest_in(
            #[trigger] rectangles[i],
            left_over(rectangles, cells, i),
        )
}

/// Every position of the rows `[r0, r1)` and columns `[c0, c1)` is one of
/// `cells`.
pub open spec fn block(cells: Set<Position>, r0: int, r1: int, c0: int, c1: int) -> bool {
    forall|p: Position| r0 <= p.row < r1 && c0 <= p.column < c1 ==> #[trigger] cells.contains(p)
}

/// The last `h` rows before `next_row` are filled from column `from` to column
/// `c`.
pub open spec fn fits_left(cells: Set<Position>, next_row: int, h: int, c: int, from: int) -> bool {
    block(cells, next_row - h, next_row, from, c + 1)
}

/// The last `h` rows before `next_row` are filled from column `c` up to, not
/// including, column `to`.
pub open spec fn fits_right(cells: Set<Position>, next_row: int, h: int, c: int, to: int) -> bool {
    block(cells, next_row - h, next_row, c, to)
}

/// `h` is the number of cells that stand in column `c` directly above
/// `next_row`, without a gap.
pub open spec fn height_ok(cells: Set<Position>, next_row: int, c: int, h: int, min_row: int) -> bool {
    &&& 0 <= h <= next_row - min_row
    &&& block(cells, next_row - h, next_row, c, c + 1)
    &&& !cells.contains(Position { row: (next_row - h - 1) as i32, column: c as i32 })
}

/// `l` is the least column from which the last `h` rows before `next_row` are
/// filled up to column `c`.
pub open spec fn left_ok(
    cells: Set<Position>,
    next_row: int,
    c: int,
    h: int,
    l: int,
    min_column: int,
) -> bool {
    &&& min_column <= l <= c
    &&& fits_left(cells, next_row, h, c, l)
    &&& forall|from: int|
        min_column <= from <= c && #[trigger] fits_left(cells, next_row, h, c, from) ==> l <= from
}

/// `r` is the greatest column up to which, not including it, the last `h` rows
/// before `next_row` are filled from column `c`.
pub open spec fn right_ok(
    cells: Set<Position>,
    next_row: int,
    c: int,
    h: int,
    r: int,
    max_column: int,
) -> bool {
    &&& c < r <= max_column
    &&& fits_right(cells, next_row, h, c, r)
    &&& forall|to: int|
        c < to <= max_column && #[trigger] fits_right(cells, next_row, h, c, to) ==> to <= r
}

/// `q` is a rectangle of cells that ends above `next_row`.
pub open spec fn settled(q: Rectangle, cells: Set<Position>, next_row: int) -> bool {
    inside(q, cells) && q.cell_count() > 0 && q.max_row <= next_row
}

/// `q` is a rectangle of cells that ends in `row`, holds the column at index `k`,
/// and has no lower column than that one.
pub open spec fn anchored(
    q: Rectangle,
    cells: Set<Position>,
    row: int,
    min_column: int,
    heights: Seq<i32>,
    k: int,
) -> bool {
    &&& inside(q, cells)
    &&& q.cell_count() > 0
    &&& q.max_row == row + 1
    &&& q.min_column <= min_column + k < q.max_column
    &&& forall|j: int|
        q.min_column <= min_column + j < q.max_column && 0 <= j < heights.len() ==> heights[k]
            <= #[trigger] heights[j]
}

/// Some index of `[a, b)` holds the least of the values there.
proof fn lemma_lowest(heights: Seq<i32>, a: int, b: int) -> (k: int)
    requires
        0 <= a < b <= heights.len(),
    ensures
        a <= k < b,
        forall|j: int| a <= j < b ==> heights[k] <= #[trigger] heights[j],
    decreases b - a,
{
    if b == a + 1 {
        a
    } else {
        let k = lemma_lowest(heights, a, b - 1);
        if heights[b - 1] < heights[k] {
            b - 1
        } else {
            k
        }
    }
}

/// A rectangle with no more rows and no more columns has no more cells.
proof fn lemma_count_grows(q: Rectangle, r: Rectangle)
    requires
        q.rows() <= r.rows(),
        q.columns() <= r.columns(),
    ensures
        q.cell_count() <= r.cell_count(),
{
    assert(q.columns() * q.rows() <= r.columns() * r.rows()) by (nonlinear_arith)
        requires
            0 <= q.rows() <= r.rows(),
            0 <= q.columns() <= r.columns(),
    ;
}

/// A rectangle of at least one cell has its bounds in order.
proof fn lemma_nonempty(q: Rectangle)
    requires
        q.cell_count() > 0,
    ensures
        q.min_row < q.max_row,
        q.min_column < q.max_column,
{
    assert(q.columns() > 0 && q.rows() > 0) by (nonlinear_arith)
        requires
            q.columns() * q.rows() > 0,
            q.columns() >= 0,
            q.rows() >= 0,
    ;
}

/// A rectangle with the largest number of cells among those that lie inside the
/// galaxy, found row by row from the height of each column and the extent to
/// which that height reaches left and right.
pub fn largest_rectangle(galaxy: &Galaxy) -> (best: Rectangle)
    requires
        galaxy.wf(),
        !galaxy@.is_empty(),
    ensures
        inside(best, galaxy@),
        best.cell_count() > 0,
        largest_in(best, galaxy@),
{
    let ghost cells = galaxy@;
    let bounds = galaxy.get_bounding_rectangle();
    proof {
        lemma_center_range(cells, bounds);
    }
    let min_row: i32 = bounds.min_row;
    let max_row: i32 = bounds.max_row;
    let min_column: i32 = bounds.min_column;
    let max_column: i32 = bounds.max_column;
    let width: usize = (max_column - min_column) as usize;
    let mut heights: Vec<i32> = vec![0; width];
    let mut lefts: Vec<i32> = vec![min_column; width];
    let mut rights: Vec<i32> = vec![max_column; width];
    let mut best = Rectangle { min_row: 0, max_row: 0, min_column: 0, max_column: 0 };
    let mut row: i32 = min_row;
    proof {
        assert(best.cell_count() == 0) by (nonlinear_arith)
            requires
                best.columns() == 0,
        ;
        assert forall|q: Rectangle| #[trigger] settled(q, cells, row as int) implies q.cell_count()
            <= best.cell_count() by {
            lemma_nonempty(q);
            let p = Position { row: q.min_row, column: q.min_column };
            assert(q.contains(p));
            assert(cells.contains(p));
        }
    }
    while row < max_row
        invariant
            galaxy.wf(),
            cells == galaxy@,
            bounds.bounds(cells),
            !cells.is_empty(),
            bounds == (Rectangle { min_row, max_row, min_column, max_column }),
            -COORDINATE_LIMIT <= min_row <= row <= max_row <= COORDINATE_LIMIT + 1,
            -COORDINATE_LIMIT <= min_column < max_column <= COORDINATE_LIMIT + 1,
            width == max_column - min_column,
            heights.len() == width,
            lefts.len() == width,
            rights.len() == width,
            forall|k: int|
                0 <= k < width ==> height_ok(
                    cells,
                    row as int,
                    min_column + k,
                    (#[trigger] heights@[k]) as int,
                    min_row as int,
                ),
            forall|k: int|
                0 <= k < width ==> left_ok(
                    cells,
                    row as int,
                    min_column + k,
                    heights@[k] as int,
                    (#[trigger] lefts@[k]) as int,
                    min_column as int,
                ),
            forall|k: int|
                0 <= k < width ==> right_ok(
                    cells,
                    row as int,
                    min_column + k,
                    heights@[k] as int,
                    (#[trigger] rights@[k]) as int,
                    max_column as int,
                ),
            inside(best, cells),
            best.cell_count() >= 0,
            forall|q: Rectangle| #[trigger]
                settled(q, cells, row as int) ==> q.cell_count() <= best.cell_count(),
        decreases max_row - row,
    {
        let ghost old_heights = heights@;
        let ghost old_lefts = lefts@;
        let ghost old_rights = rights@;
        let mut k: usize = 0;
        while k < width
            invariant
                galaxy.wf(),
                cells == galaxy@,
                -COORDINATE_LIMIT <= min_row <= row < max_row <= COORDINATE_LIMIT + 1,
                -COORDINATE_LIMIT <= min_column < max_column <= COORDINATE_LIMIT + 1,
                width == max_column - min_column,
                k <= width,
                heights.len() == width,
                old_heights.len() == width,
                forall|j: int|
                    0 <= j < width ==> height_ok(
                        cells,
                        row as int,
                        min_column + j,
                        (#[trigger] old_heights[j]) as int,
                        min_row as int,
                    ),
                forall|j: int| k <= j < width ==> #[trigger] heights@[j] == old_heights[j],
                forall|j: int|
                    0 <= j < k ==> #[trigger] heights@[j] == (if cells.contains(
                        Position { row, column: (min_column + j) as i32 },
                    ) {
                        old_heights[j] + 1
                    } else {
                        0
                    }),
            decreases width - k,
        {
            let p = Position { row, column: min_column + k as i32 };
            assert(height_ok(
                cells,
                row as int,
                min_column + k,
                old_heights[k as int] as int,
                min_row as int,
            ));
            if galaxy.contains_position(&p) {
                heights[k] = heights[k] + 1;
            } else {
                heights[k] = 0;
            }
            k += 1;
        }
        proof {
            assert forall|j: int| 0 <= j < width implies height_ok(
                cells,
                row + 1,
                min_column + j,
                (#[trigger] heights@[j]) as int,
                min_row as int,
            ) by {
                assert(height_ok(
                    cells,
                    row as int,
                    min_column + j,
                    old_heights[j] as int,
                    min_row as int,
                ));
            }
        }
        let mut current_left: i32 = min_column;
        k = 0;
        while k < width
            invariant
                galaxy.wf(),
                cells == galaxy@,
                -COORDINATE_LIMIT <= min_row <= row < max_row <= COORDINATE_LIMIT + 1,
                -COORDINATE_LIMIT <= min_column < max_column <= COORDINATE_LIMIT + 1,
                width == max_column - min_column,
                k <= width,
                heights.len() == width,
                lefts.len() == width,
                old_heights.len() == width,
                old_lefts.len() == width,
                forall|j: int|
                    0 <= j < width ==> left_ok(
                        cells,
                        row as int,
                        min_column + j,
                        old_heights[j] as int,
                        (#[trigger] old_lefts[j]) as int,
                        min_column as int,
                    ),
                forall|j: int|
                    0 <= j < width ==> #[trigger] heights@[j] == (if cells.contains(
                        Position { row, column: (min_column + j) as i32 },
                    ) {
                        old_heights[j] + 1
                    } else {
                        0
                    }),
                forall|j: int| 0 <= j < width ==> 0 <= #[trigger] old_heights[j] <= row - min_row,
                forall|j: int| k <= j < width ==> #[trigger] lefts@[j] == old_lefts[j],
                forall|j: int|
                    0 <= j < k ==> left_ok(
                        cells,
                        row + 1,
                        min_column + j,
                        heights@[j] as int,
                        (#[trigger] lefts@[j]) as int,
                        min_column as int,
                    ),
                min_column <= current_left <= min_column + k,
                block(cells, row as int, row + 1, current_left as int, min_column + k),
                current_left == min_column || !cells.contains(
                    Position { row, column: (current_left - 1) as i32 },
                ),
            decreases width - k,
        {
            let column: i32 = min_column + k as i32;
            let p = Position { row, column };
            let ghost h = old_heights[k as int] as int;
            let ghost l = old_lefts[k as int] as int;
            assert(left_ok(cells, row as int, column as int, h, l, min_column as int));
            assert(heights@[k as int] == (if cells.contains(
                Position { row, column: (min_column + k) as i32 },
            ) {
                old_heights[k as int] + 1
            } else {
                0
            }));
            if galaxy.contains_position(&p) {
                let old_left: i32 = lefts[k];
                let new_left: i32 = if old_left > current_left {
                    old_left
                } else {
                    current_left
                };
                lefts[k] = new_left;
                proof {
                    assert(fits_left(cells, row + 1, h + 1, column as int, new_left as int)) by {
                        assert(fits_left(cells, row as int, h, column as int, l));
                    }
                    assert forall|from: int|
                        min_column <= from <= column && #[trigger] fits_left(
                            cells,
                            row + 1,
                            h + 1,
                            column as int,
                            from,
                        ) implies new_left <= from by {
                        assert(fits_left(cells, row as int, h, column as int, from));
                        if from < current_left {
                            let gap = Position { row, column: (current_left - 1) as i32 };
                            assert(cells.contains(gap));
                        }
                    }
                }
            } else {
                lefts[k] = min_column;
                current_left = column + 1;
            }
            k += 1;
        }
        let mut current_right: i32 = max_column;
        k = width;
        while k > 0
            invariant
                galaxy.wf(),
                cells == galaxy@,
                -COORDINATE_LIMIT <= min_row <= row < max_row <= COORDINATE_LIMIT + 1,
                -COORDINATE_LIMIT <= min_column < max_column <= COORDINATE_LIMIT + 1,
                width == max_column - min_column,
                k <= width,
                heights.len() == width,
                rights.len() == width,
                old_heights.len() == width,
                old_rights.len() == width,
                forall|j: int|
                    0 <= j < width ==> right_ok(
                        cells,
                        row as int,
                        min_column + j,
                        old_heights[j] as int,
                        (#[trigger] old_rights[j]) as int,
                        max_column as int,
                    ),
                forall|j: int|
                    0 <= j < width ==> #[trigger] heights@[j] == (if cells.contains(
                        Position { row, column: (min_column + j) as i32 },
                    ) {
                        old_heights[j] + 1
                    } else {
                        0
                    }),
                forall|j: int| 0 <= j < width ==> 0 <= #[trigger] old_heights[j] <= row - min_row,
                forall|j: int| 0 <= j < k ==> #[trigger] rights@[j] == old_rights[j],
                forall|j: int|
                    k <= j < width ==> right_ok(
                        cells,
                        row + 1,
                        min_column + j,
                        heights@[j] as int,
                        (#[trigger] rights@[j]) as int,
                        max_column as int,
                    ),
                min_column + k <= current_right <= max_column,
                block(cells, row as int, row + 1, min_column + k, current_right as int),
                current_right == max_column || !cells.contains(
                    Position { row, column: current_right },
                ),
            decreases k,
        {
            k -= 1;
            let column: i32 = min_column + k as i32;
            let p = Position { row, column };
            let ghost h = old_heights[k as int] as int;
            let ghost r = old_rights[k as int] as int;
            assert(right_ok(cells, row as int, column as int, h, r, max_column as int));
            assert(heights@[k as int] == (if cells.contains(
                Position { row, column: (min_column + k) as i32 },
            ) {
                old_heights[k as int] + 1
            } else {
                0
            }));
            if galaxy.contains_position(&p) {
                let old_right: i32 = rights[k];
                let new_right: i32 = if old_right < current_right {
                    old_right
                } else {
                    current_right
                };
                rights[k] = new_right;
                proof {
                    assert(fits_right(cells, row + 1, h + 1, column as int, new_right as int)) by {
                        assert(fits_right(cells, row as int, h, column as int, r));
                    }
                    assert forall|to: int|
                        column < to <= max_column && #[trigger] fits_right(
                            cells,
                            row + 1,
                            h + 1,
                            column as int,
                            to,
                        ) implies to <= new_right by {
                        assert(fits_right(cells, row as int, h, column as int, to));
                        if to > current_right {
                            let gap = Position { row, column: current_right };
                            assert(cells.contains(gap));
                        }
                    }
                }
            } else {
                rights[k] = max_column;
                current_right = column;
            }
        }
        k = 0;
        while k < width
            invariant
                galaxy.wf(),
                cells == galaxy@,
                bounds.bounds(cells),
                bounds == (Rectangle { min_row, max_row, min_column, max_column }),
                -COORDINATE_LIMIT <= min_row <= row < max_row <= COORDINATE_LIMIT + 1,
                -COORDINATE_LIMIT <= min_column < max_column <= COORDINATE_LIMIT + 1,
                width == max_column - min_column,
                k <= width,
                heights.len() == width,
                lefts.len() == width,
                rights.len() == width,
                forall|j: int|
                    0 <= j < width ==> height_ok(
                        cells,
                        row + 1,
                        min_column + j,
                        (#[trigger] heights@[j]) as int,
                        min_row as int,
                    ),
                forall|j: int|
                    0 <= j < width ==> left_ok(
                        cells,
                        row + 1,
                        min_column + j,
                        heights@[j] as int,
                        (#[trigger] lefts@[j]) as int,
                        min_column as int,
                    ),
                forall|j: int|
                    0 <= j < width ==> right_ok(
                        cells,
                        row + 1,
                        min_column + j,
                        heights@[j] as int,
                        (#[trigger] rights@[j]) as int,
                        max_column as int,
                    ),
                inside(best, cells),
                best.cell_count() >= 0,
                forall|q: Rectangle| #[trigger]
                    settled(q, cells, row as int) ==> q.cell_count() <= best.cell_count(),
                forall|j: int, q: Rectangle|
                    0 <= j < k && #[trigger] anchored(
                        q,
                        cells,
                        row as int,
                        min_column as int,
                        heights@,
                        j,
                    ) ==> q.cell_count() <= best.cell_count(),
            decreases width - k,
        {
            let h: i32 = heights[k];
            let candidate = Rectangle {
                min_row: row - h + 1,
                max_row: row + 1,
                min_column: lefts[k],
                max_column: rights[k],
            };
            let ghost column = min_column + k;
            proof {
                assert(height_ok(cells, row + 1, column, heights@[k as int] as int, min_row as int));
                assert(left_ok(
                    cells,
                    row + 1,
                    column,
                    heights@[k as int] as int,
                    lefts@[k as int] as int,
                    min_column as int,
                ));
                assert(right_ok(
                    cells,
                    row + 1,
                    column,
                    heights@[k as int] as int,
                    rights@[k as int] as int,
                    max_column as int,
                ));
                assert(inside(candidate, cells)) by {
                    assert forall|p: Position| candidate.contains(p) implies #[trigger] cells.contains(
                        p,
                    ) by {
                        if p.column <= column {
                            assert(fits_left(
                                cells,
                                row + 1,
                                h as int,
                                column,
                                lefts@[k as int] as int,
                            ));
                        } else {
                            assert(fits_right(
                                cells,
                                row + 1,
                                h as int,
                                column,
                                rights@[k as int] as int,
                            ));
                        }
                    }
                }
                assert forall|q: Rectangle| #[trigger]
                    anchored(
                        q,
                        cells,
                        row as int,
                        min_column as int,
                        heights@,
                        k as int,
                    ) implies q.cell_count() <= candidate.cell_count() by {
                    lemma_nonempty(q);
                    let top = Position { row: (row - h) as i32, column: column as i32 };
                    if q.min_row <= row - h {
                        assert(q.contains(top));
                        assert(cells.contains(top));
                    }
                    assert(fits_left(cells, row + 1, h as int, column, q.min_column as int)) by {
                        assert forall|p: Position|
                            row + 1 - h <= p.row < row + 1 && q.min_column <= p.column < column
                                + 1 implies #[trigger] cells.contains(p) by {
                            let corner = Position { row: q.min_row, column: p.column };
                            assert(q.contains(corner));
                            assert(bounds.contains(corner));
                            let j = p.column - min_column;
                            assert(h <= heights@[j]);
                            assert(height_ok(
                                cells,
                                row + 1,
                                min_column + j,
                                heights@[j] as int,
                                min_row as int,
                            ));
                        }
                    }
                    assert(fits_right(cells, row + 1, h as int, column, q.max_column as int)) by {
                        assert forall|p: Position|
                            row + 1 - h <= p.row < row + 1 && column <= p.column
                                < q.max_column implies #[trigger] cells.contains(p) by {
                            let corner = Position { row: q.min_row, column: p.column };
                            assert(q.contains(corner));
                            assert(bounds.contains(corner));
                            let j = p.column - min_column;
                            assert(h <= heights@[j]);
                            assert(height_ok(
                                cells,
                                row + 1,
                                min_column + j,
                                heights@[j] as int,
                                min_row as int,
                            ));
                        }
                    }
                    let first = Position { row: q.min_row, column: q.min_column };
                    let last = Position { row: q.min_row, column: (q.max_column - 1) as i32 };
                    assert(q.contains(first) && q.contains(last));
                    assert(bounds.contains(first) && bounds.contains(last));
                    lemma_count_grows(q, candidate);
                }
            }
            if candidate.area() > best.area() {
                best = candidate;
            }
            k += 1;
        }
        proof {
            assert forall|q: Rectangle| #[trigger] settled(q, cells, row + 1) implies q.cell_count()
                <= best.cell_count() by {
                if q.max_row == row + 1 {
                    lemma_nonempty(q);
                    let first = Position { row: q.min_row, column: q.min_column };
                    let last = Position { row: q.min_row, column: (q.max_column - 1) as i32 };
                    assert(q.contains(first) && q.contains(last));
                    assert(bounds.contains(first) && bounds.contains(last));
                    let j = lemma_lowest(
                        heights@,
                        q.min_column - min_column,
                        q.max_column - min_column,
                    );
                    assert(anchored(q, cells, row as int, min_column as int, heights@, j));
                } else {
                    assert(settled(q, cells, row as int));
                }
            }
        }
        row += 1;
    }
    proof {
        assert forall|q: Rectangle| #[trigger] inside(q, cells) implies q.cell_count()
            <= best.cell_count() by {
            if q.cell_count() > 0 {
                lemma_nonempty(q);
                let last = Position { row: (q.max_row - 1) as i32, column: q.min_column };
                assert(q.contains(last));
                assert(bounds.contains(last));
                assert(settled(q, cells, row as int));
            }
        }
        let some = choose|p: Position| cells.contains(p);
        assert(cells.contains(some)) by {
            if forall|p: Position| !cells.contains(p) {
                assert(cells =~= Set::<Position>::empty());
            }
        }
        let unit = Rectangle {
            min_row: some.row,
            max_row: (some.row + 1) as i32,
            min_column: some.column,
            max_column: (some.column + 1) as i32,
        };
        assert(inside(unit, cells)) by {
            assert forall|p: Position| unit.contains(p) implies #[trigger] cells.contains(p) by {
                assert(p == some);
            }
        }
        assert(unit.cell_count() == 1) by (nonlinear_arith)
            requires
                unit.columns() == 1,
                unit.rows() == 1,
                unit.cell_count() == unit.columns() * unit.rows(),
        ;
    }
    best
}

impl Galaxy {
    /// The rectangles that make up the galaxy, found by taking a largest
    /// rectangle out of it, then a largest one out of the rest, and so on. The
    /// rectangle that was taken first comes last.
    pub fn rectangles(&self) -> (rectangles: Vec<Rectangle>)
        requires
            self.wf(),
        ensures
            tiles(rectangles@, self@),
            greedy(rectangles@, self@),
    {
        Galaxy::rectangles_internal(self.copy())
    }

    /// The rectangles that make up `positions`; see `rectangles`.
    pub fn rectangles_internal(positions: Galaxy) -> (rectangles: Vec<Rectangle>)
        requires
            positions.wf(),
        ensures
            tiles(rectangles@, positions@),
            greedy(rectangles@, positions@),
        decreases positions@.len(),
    {
        if positions.is_empty() {
            return Vec::new();
        }
        let ghost cells = positions@;
        let largest = largest_rectangle(&positions);
        proof {
            lemma_nonempty(largest);
            let first = Position { row: largest.min_row, column: largest.min_column };
            let last = Position {
                row: (largest.max_row - 1) as i32,
                column: (largest.max_column - 1) as i32,
            };
            assert(largest.contains(first) && largest.contains(last));
            assert(cells.contains(first) && cells.contains(last));
        }
        let mut rest = positions;
        let mut row: i32 = largest.min_row;
        while row < largest.max_row
            invariant
                rest.wf(),
                largest.min_row <= row <= largest.max_row <= COORDINATE_LIMIT + 1,
                largest.min_column < largest.max_column <= COORDINATE_LIMIT + 1,
                rest@ == Set::new(
                    |p: Position| cells.contains(p) && !(largest.contains(p) && p.row < row),
                ),
            decreases largest.max_row - row,
        {
            let mut column: i32 = largest.min_column;
            while column < largest.max_column
                invariant
                    rest.wf(),
                    largest.min_row <= row < largest.max_row <= COORDINATE_LIMIT + 1,
                    largest.min_column <= column <= largest.max_column <= COORDINATE_LIMIT + 1,
                    rest@ == Set::new(
                        |p: Position|
                            cells.contains(p) && !(largest.contains(p) && (p.row < row || (p.row
                                == row && p.column < column))),
                    ),
                decreases largest.max_column - column,
            {
                let p = Position { row, column };
                rest.remove_position(&p);
                column += 1;
                assert(rest@ =~= Set::new(
                    |p: Position|
                        cells.contains(p) && !(largest.contains(p) && (p.row < row || (p.row
                            == row && p.column < column))),
                ));
            }
            row += 1;
            assert(rest@ =~= Set::new(
                |p: Position| cells.contains(p) && !(largest.contains(p) && p.row < row),
            ));
        }
        let ghost remaining = rest@;
        proof {
            assert(remaining =~= Set::new(
                |p: Position| cells.contains(p) && !largest.contains(p),
            ));
            let first = Position { row: largest.min_row, column: largest.min_column };
            assert(remaining.subset_of(cells.remove(first)));
            lemma_len_subset(remaining, cells.remove(first));
        }
        let mut rectangles = Galaxy::rectangles_internal(rest);
        let ghost earlier = rectangles@;
        rectangles.push(largest);
        proof {
            let all = rectangles@;
            let n = earlier.len() as int;
            assert(all.len() == n + 1);
            assert(all[n] == largest);
            assert forall|i: int| 0 <= i < n implies #[trigger] all[i] == earlier[i] by {}
            assert forall|i: int| 0 <= i < all.len() implies inside(#[trigger] all[i], cells) by {
                if i < n {
                    assert(inside(earlier[i], remaining));
                }
            }
            assert forall|i: int, j: int, p: Position|
                0 <= i < j < all.len() && #[trigger] all[i].contains(p) implies !(
            #[trigger] all[j].contains(p)) by {
                if j < n {
                    assert(earlier[i].contains(p));
                    assert(!earlier[j].contains(p));
                } else {
                    assert(inside(earlier[i], remaining));
                    assert(remaining.contains(p));
                }
            }
            assert forall|p: Position| cells.contains(p) implies exists|i: int|
                0 <= i < all.len() && #[trigger] all[i].contains(p) by {
                if largest.contains(p) {
                    assert(all[n].contains(p));
                } else {
                    assert(remaining.contains(p));
                    let i = choose|i: int| 0 <= i < earlier.len() && #[trigger] earlier[i].contains(p);
                    assert(all[i].contains(p));
                }
            }
            assert forall|i: int| 0 <= i < all.len() implies (#[trigger] all[i]).cell_count()
                > 0 by {
                if i < n {
                    assert(earlier[i].cell_count() > 0);
                }
            }
            assert forall|i: int| 0 <= i < all.len() implies largest_in(
                #[trigger] all[i],
                left_over(all, cells, i),
            ) by {
                if i < n {
                    assert(largest_in(earlier[i], left_over(earlier, remaining, i)));
                    assert(left_over(all, cells, i) =~= left_over(earlier, remaining, i)) by {
                        assert forall|p: Position|
                            left_over(all, cells, i).contains(p) <==> left_over(
                                earlier,
                                remaining,
                                i,
                            ).contains(p) by {
                            if left_over(all, cells, i).contains(p) {
                                assert(!all[n].contains(p));
                                assert forall|j: int| i < j < earlier.len() implies !(
                                #[trigger] earlier[j].contains(p)) by {
                                    assert(!all[j].contains(p));
                                }
                            }
                            if left_over(earlier, remaining, i).contains(p) {
                                assert forall|j: int| i < j < all.len() implies !(
                                #[trigger] all[j].contains(p)) by {
                                    if j < n {
                                        assert(!earlier[j].contains(p));
                                    }
                                }
                            }
                        }
                    }
                } else {
                    assert(left_over(all, cells, i) =~= cells);
                }
            }
        }
        rectangles
    }
}

} // verus!

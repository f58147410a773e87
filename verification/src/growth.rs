//! How a valid galaxy can grow: where it is symmetric again with one or two
//! more cells, it holds its center with them.
use vstd::prelude::*;

use crate::border::Border;
use crate::galaxy::{
    all_in_range,
    center_of,
    connected,
    holds_center,
    lemma_bounds_exist,
    lemma_center_range,
    lemma_extremes,
    symmetric,
    valid_shape,
};
use crate::reach::{open_move, reachable, within};
use crate::position::{Position, COORDINATE_LIMIT};
use crate::rectangle::bounding_of;

verus! {

/// The position `rows` rows below and `columns` columns right of `p`.
pub open spec fn moved(p: Position, rows: int, columns: int) -> Position {
    Position { row: (p.row + rows) as i32, column: (p.column + columns) as i32 }
}

/// With every cell of `cells`, the cell one step of `(rows, columns)` on
/// belongs to `cells` too, or is `joining`.
pub open spec fn carried(cells: Set<Position>, joining: Position, rows: int, columns: int) -> bool {
    forall|x: Position|
        cells.contains(x) ==> cells.contains(#[trigger] moved(x, rows, columns)) || moved(
            x,
            rows,
            columns,
        ) == joining
}

/// How far `x` lies from the edge of the range that steps of `(rows, columns)`
/// lead to.
pub open spec fn room_left(x: Position, rows: int, columns: int) -> int {
    if rows > 0 {
        COORDINATE_LIMIT - x.row
    } else if rows < 0 {
        x.row + COORDINATE_LIMIT
    } else if columns > 0 {
        COORDINATE_LIMIT - x.column
    } else {
        x.column + COORDINATE_LIMIT
    }
}

/// `x` lies on from `origin` in the direction of `(rows, columns)`, or where
/// `origin` lies.
pub open spec fn onward(origin: Position, x: Position, rows: int, columns: int) -> bool {
    &&& rows > 0 ==> x.row >= origin.row
    &&& rows < 0 ==> x.row <= origin.row
    &&& rows == 0 ==> x.row == origin.row
    &&& columns > 0 ==> x.column >= origin.column
    &&& columns < 0 ==> x.column <= origin.column
    &&& columns == 0 ==> x.column == origin.column
}

/// Where two symmetric sets of cells differ by one cell, every cell of the
/// smaller one, moved by the difference of the two centers, is a cell of the
/// larger one.
proof fn lemma_carried(cells: Set<Position>, joining: Position)
    requires
        cells.finite(),
        !cells.is_empty(),
        all_in_range(cells),
        joining.in_range(),
        symmetric(cells),
        symmetric(cells.insert(joining)),
    ensures
        carried(
            cells,
            joining,
            center_of(cells.insert(joining)).row - center_of(cells).row,
            center_of(cells.insert(joining)).column - center_of(cells).column,
        ),
        -4 * COORDINATE_LIMIT <= center_of(cells.insert(joining)).row - center_of(cells).row <= 4
            * COORDINATE_LIMIT,
        -4 * COORDINATE_LIMIT <= center_of(cells.insert(joining)).column - center_of(
            cells,
        ).column <= 4 * COORDINATE_LIMIT,
{
    let more = cells.insert(joining);
    let c = center_of(cells);
    let d = center_of(more);
    lemma_bounds_exist(cells);
    lemma_bounds_exist(more);
    lemma_center_range(cells, bounding_of(cells));
    assert(more.contains(joining));
    lemma_center_range(more, bounding_of(more));
    let rows = d.row - c.row;
    let columns = d.column - c.column;
    assert forall|x: Position| cells.contains(x) implies cells.contains(
        #[trigger] moved(x, rows, columns),
    ) || moved(x, rows, columns) == joining by {
        let y = c.mirrored(x);
        assert(cells.contains(y));
        assert(more.contains(y));
        let z = d.mirrored(y);
        assert(more.contains(z));
        assert(z == moved(x, rows, columns));
    }
}

/// Cells that are carried on by a step cannot go on for ever: a position that
/// lies on from `origin`, so that no further step leads to `joining`, is no
/// cell.
proof fn lemma_no_escape(
    cells: Set<Position>,
    joining: Position,
    origin: Position,
    x: Position,
    rows: int,
    columns: int,
)
    requires
        all_in_range(cells),
        carried(cells, joining, rows, columns),
        rows != 0 || columns != 0,
        -4 * COORDINATE_LIMIT <= rows <= 4 * COORDINATE_LIMIT,
        -4 * COORDINATE_LIMIT <= columns <= 4 * COORDINATE_LIMIT,
        onward(origin, x, rows, columns),
        forall|y: Position|
            y.in_range() && onward(origin, y, rows, columns) && y != origin ==> #[trigger] moved(
                y,
                rows,
                columns,
            ) != joining,
        x != origin,
    ensures
        !cells.contains(x),
    decreases room_left(x, rows, columns),
{
    if cells.contains(x) {
        let next = moved(x, rows, columns);
        assert(cells.contains(next) || next == joining);
        assert(next != joining);
        assert(next.in_range());
        assert(onward(origin, next, rows, columns));
        assert(next != origin);
        lemma_no_escape(cells, joining, origin, next, rows, columns);
    }
}

/// A valid galaxy that is symmetric again with one more cell, a neighbour of
/// one of its cells, holds its center with that cell too.
pub proof fn lemma_grown_holds_center(cells: Set<Position>, member: Position, joining: Position)
    requires
        cells.finite(),
        all_in_range(cells),
        valid_shape(cells),
        joining.in_range(),
        cells.contains(member),
        !cells.contains(joining),
        member.adjacent_to(joining),
        symmetric(cells.insert(joining)),
    ensures
        holds_center(cells.insert(joining)),
{
    let more = cells.insert(joining);
    let c = center_of(cells);
    let d = center_of(more);
    let rows = d.row - c.row;
    let columns = d.column - c.column;
    lemma_carried(cells, joining);
    lemma_bounds_exist(cells);
    lemma_center_range(cells, bounding_of(cells));
    // the two centers differ
    if rows == 0 && columns == 0 {
        assert(d == c);
        assert(more.contains(joining));
        let m = c.mirrored(joining);
        assert(more.contains(m));
        if m == joining {
            assert(c.surrounds(joining));
        } else {
            assert(cells.contains(m));
            assert(cells.contains(c.mirrored(m)));
            assert(c.mirrored(m) == joining);
        }
        assert(false);
    }
    // one step leads from `member` to `joining`
    let first = moved(member, rows, columns);
    assert(cells.contains(first) || first == joining);
    if first != joining {
        assert(first.in_range());
        assert forall|y: Position|
            y.in_range() && onward(member, y, rows, columns) && y != member implies #[trigger] moved(
            y,
            rows,
            columns,
        ) != joining by {
            if moved(y, rows, columns) == joining {
                assert(y.row + rows == joining.row);
                assert(y.column + columns == joining.column);
            }
        }
        lemma_no_escape(cells, joining, member, first, rows, columns);
    }
    // the center moves by one step, and the cells around it with it
    assert(rows == joining.row - member.row && columns == joining.column - member.column);
    assert(more.contains(joining));
    assert forall|f: Position| d.surrounds(f) implies #[trigger] more.contains(f) by {
        let back = moved(f, -rows, -columns);
        assert(c.surrounds(f) || c.surrounds(back));
        if c.surrounds(f) {
            assert(cells.contains(f));
        } else {
            assert(cells.contains(back));
            assert(moved(back, rows, columns) == f);
        }
    }
}

/// With every cell of `cells`, the cell one step of `(rows, columns)` on
/// belongs to `cells` too, or is one of the two cells that join.
pub open spec fn carried_pair(
    cells: Set<Position>,
    first: Position,
    second: Position,
    rows: int,
    columns: int,
) -> bool {
    forall|x: Position|
        cells.contains(x) ==> cells.contains(#[trigger] moved(x, rows, columns)) || moved(
            x,
            rows,
            columns,
        ) == first || moved(x, rows, columns) == second
}

/// Where two symmetric sets of cells differ by two cells, every cell of the
/// smaller one, moved by the difference of the two centers, is a cell of the
/// larger one.
proof fn lemma_carried_pair(cells: Set<Position>, first: Position, second: Position)
    requires
        cells.finite(),
        !cells.is_empty(),
        all_in_range(cells),
        first.in_range(),
        second.in_range(),
        symmetric(cells),
        symmetric(cells.insert(first).insert(second)),
    ensures
        carried_pair(
            cells,
            first,
            second,
            center_of(cells.insert(first).insert(second)).row - center_of(cells).row,
            center_of(cells.insert(first).insert(second)).column - center_of(cells).column,
        ),
        -4 * COORDINATE_LIMIT <= center_of(cells.insert(first).insert(second)).row - center_of(
            cells,
        ).row <= 4 * COORDINATE_LIMIT,
        -4 * COORDINATE_LIMIT <= center_of(cells.insert(first).insert(second)).column
            - center_of(cells).column <= 4 * COORDINATE_LIMIT,
{
    let more = cells.insert(first).insert(second);
    let c = center_of(cells);
    let d = center_of(more);
    lemma_bounds_exist(cells);
    lemma_bounds_exist(more);
    lemma_center_range(cells, bounding_of(cells));
    assert(more.contains(first));
    lemma_center_range(more, bounding_of(more));
    let rows = d.row - c.row;
    let columns = d.column - c.column;
    assert forall|x: Position| cells.contains(x) implies cells.contains(
        #[trigger] moved(x, rows, columns),
    ) || moved(x, rows, columns) == first || moved(x, rows, columns) == second by {
        let y = c.mirrored(x);
        assert(cells.contains(y));
        assert(more.contains(y));
        let z = d.mirrored(y);
        assert(more.contains(z));
        assert(z == moved(x, rows, columns));
    }
}

/// Cells that are carried on by a step cannot go on for ever: a position that
/// lies on from `origin`, so that no further step leads to one of the two cells
/// that join, is no cell.
proof fn lemma_no_escape_pair(
    cells: Set<Position>,
    first: Position,
    second: Position,
    origin: Position,
    x: Position,
    rows: int,
    columns: int,
)
    requires
        all_in_range(cells),
        carried_pair(cells, first, second, rows, columns),
        rows != 0 || columns != 0,
        -4 * COORDINATE_LIMIT <= rows <= 4 * COORDINATE_LIMIT,
        -4 * COORDINATE_LIMIT <= columns <= 4 * COORDINATE_LIMIT,
        onward(origin, x, rows, columns),
        forall|y: Position|
            y.in_range() && onward(origin, y, rows, columns) && y != origin ==> #[trigger] moved(
                y,
                rows,
                columns,
            ) != first && moved(y, rows, columns) != second,
        x != origin,
    ensures
        !cells.contains(x),
    decreases room_left(x, rows, columns),
{
    if cells.contains(x) {
        let next = moved(x, rows, columns);
        assert(cells.contains(next) || next == first || next == second);
        assert(next != first && next != second);
        assert(next.in_range());
        assert(onward(origin, next, rows, columns));
        assert(next != origin);
        lemma_no_escape_pair(cells, first, second, origin, next, rows, columns);
    }
}

/// `x` lies on the line through `origin` in the direction of `(rows, columns)`,
/// of which one is zero.
pub open spec fn on_line(x: Position, origin: Position, rows: int, columns: int) -> bool {
    &&& rows != 0 ==> x.column == origin.column
    &&& columns != 0 ==> x.row == origin.row
}

/// Where steps along a line carry every cell on to a cell or to one of two
/// positions on the line, a position off the line is no cell.
proof fn lemma_off_line_pair(
    cells: Set<Position>,
    first: Position,
    second: Position,
    x: Position,
    rows: int,
    columns: int,
)
    requires
        all_in_range(cells),
        carried_pair(cells, first, second, rows, columns),
        (rows == 0 && columns != 0) || (columns == 0 && rows != 0),
        -4 * COORDINATE_LIMIT <= rows <= 4 * COORDINATE_LIMIT,
        -4 * COORDINATE_LIMIT <= columns <= 4 * COORDINATE_LIMIT,
        first.in_range(),
        second.in_range(),
        on_line(second, first, rows, columns),
        !on_line(x, first, rows, columns),
    ensures
        !cells.contains(x),
    decreases room_left(x, rows, columns),
{
    if cells.contains(x) {
        let next = moved(x, rows, columns);
        assert(cells.contains(next) || next == first || next == second);
        assert(!on_line(next, first, rows, columns));
        assert(next != first && next != second);
        assert(next.in_range());
        lemma_off_line_pair(cells, first, second, next, rows, columns);
    }
}

/// From a cell without a neighbour among the cells, moves lead nowhere.
proof fn lemma_stuck(cells: Set<Position>, lone: Position, n: nat)
    requires
        forall|q: Position| cells.contains(q) ==> !#[trigger] lone.adjacent_to(q),
    ensures
        within(cells, Set::<Border>::empty(), set![lone], n) =~= set![lone],
    decreases n,
{
    if n > 0 {
        lemma_stuck(cells, lone, (n - 1) as nat);
        let nearer = within(cells, Set::<Border>::empty(), set![lone], (n - 1) as nat);
        assert forall|q: Position|
            within(cells, Set::<Border>::empty(), set![lone], n).contains(q) implies q
            == lone by {
            if !nearer.contains(q) {
                let p = choose|p: Position|
                    nearer.contains(p) && #[trigger] open_move(
                        cells,
                        Set::<Border>::empty(),
                        p,
                        q,
                    );
                assert(p == lone);
            }
        }
    }
}

/// In a connected set of more than one cell, every cell has a neighbour.
proof fn lemma_has_neighbour(cells: Set<Position>, cell: Position, other: Position) -> (n: Position)
    requires
        connected(cells),
        cells.contains(cell),
        cells.contains(other),
        other != cell,
    ensures
        cells.contains(n),
        cell.adjacent_to(n),
{
    if forall|q: Position| cells.contains(q) ==> !#[trigger] cell.adjacent_to(q) {
        assert(reachable(cells, Set::<Border>::empty(), set![cell], other));
        let k = choose|k: nat|
            within(cells, Set::<Border>::empty(), set![cell], k).contains(other);
        lemma_stuck(cells, cell, k);
        assert(false);
    }
    choose|q: Position| cells.contains(q) && #[trigger] cell.adjacent_to(q)
}

/// A valid galaxy that is symmetric again with two more cells, a neighbour of
/// one of its cells and a neighbour of that one, holds its center with them
/// too.
pub proof fn lemma_pair_holds_center(
    cells: Set<Position>,
    member: Position,
    first: Position,
    second: Position,
)
    requires
        cells.finite(),
        all_in_range(cells),
        valid_shape(cells),
        first.in_range(),
        second.in_range(),
        cells.contains(member),
        !cells.contains(first),
        !cells.contains(second),
        first != second,
        member.adjacent_to(first),
        first.adjacent_to(second),
        symmetric(cells.insert(first).insert(second)),
    ensures
        holds_center(cells.insert(first).insert(second)),
{
    let more = cells.insert(first).insert(second);
    let c = center_of(cells);
    let d = center_of(more);
    let rows = d.row - c.row;
    let columns = d.column - c.column;
    lemma_carried_pair(cells, first, second);
    lemma_bounds_exist(cells);
    lemma_center_range(cells, bounding_of(cells));
    assert(more.contains(first) && more.contains(second));
    if rows == 0 && columns == 0 {
        assert(d == c);
        assert forall|f: Position| d.surrounds(f) implies #[trigger] more.contains(f) by {
            assert(cells.contains(f));
        }
    } else {
        // one step leads from `member` to one of the two
        let next = moved(member, rows, columns);
        assert(cells.contains(next) || next == first || next == second);
        if next != first && next != second {
            assert(next.in_range());
            assert forall|y: Position|
                y.in_range() && onward(member, y, rows, columns) && y
                    != member implies #[trigger] moved(y, rows, columns) != first && moved(
                y,
                rows,
                columns,
            ) != second by {
                if moved(y, rows, columns) == first {
                    assert(y.row + rows == first.row);
                    assert(y.column + columns == first.column);
                }
                if moved(y, rows, columns) == second {
                    assert(y.row + rows == second.row);
                    assert(y.column + columns == second.column);
                }
            }
            lemma_no_escape_pair(cells, first, second, member, next, rows, columns);
        }
        let step_rows = first.row - member.row;
        let step_columns = first.column - member.column;
        let turn_rows = second.row - first.row;
        let turn_columns = second.column - first.column;
        if next == first {
            // the center moves by one step
            assert forall|f: Position| d.surrounds(f) implies #[trigger] more.contains(f) by {
                let back = moved(f, -rows, -columns);
                assert(c.surrounds(f) || c.surrounds(back));
                if c.surrounds(f) {
                    assert(cells.contains(f));
                } else {
                    assert(cells.contains(back));
                    assert(moved(back, rows, columns) == f);
                }
            }
        } else if turn_rows == step_rows && turn_columns == step_columns {
            // the center moves by two steps along a line
            lemma_straight(cells, member, first, second);
        } else {
            // the center moves by a step and a step across
            lemma_diagonal(cells, member, first, second);
        }
    }
}

/// The case of `lemma_pair_holds_center` in which the two cells lie straight
/// on from `member` and the center moves by two steps.
proof fn lemma_straight(cells: Set<Position>, member: Position, first: Position, second: Position)
    requires
        cells.finite(),
        all_in_range(cells),
        valid_shape(cells),
        first.in_range(),
        second.in_range(),
        cells.contains(member),
        !cells.contains(first),
        !cells.contains(second),
        member.adjacent_to(first),
        second.row - first.row == first.row - member.row,
        second.column - first.column == first.column - member.column,
        symmetric(cells.insert(first).insert(second)),
        carried_pair(
            cells,
            first,
            second,
            second.row - member.row,
            second.column - member.column,
        ),
        center_of(cells.insert(first).insert(second)).row - center_of(cells).row == second.row
            - member.row,
        center_of(cells.insert(first).insert(second)).column - center_of(cells).column
            == second.column - member.column,
    ensures
        holds_center(cells.insert(first).insert(second)),
{
    let more = cells.insert(first).insert(second);
    let c = center_of(cells);
    let d = center_of(more);
    let rows = second.row - member.row;
    let columns = second.column - member.column;
    let step_rows = first.row - member.row;
    let step_columns = first.column - member.column;
    let r = bounding_of(cells);
    lemma_bounds_exist(cells);
    lemma_center_range(cells, r);
    lemma_extremes(cells, r);
    assert(more.contains(first) && more.contains(second));
    // all cells lie on the line through the two
    assert forall|x: Position| cells.contains(x) implies on_line(x, first, rows, columns) by {
        if !on_line(x, first, rows, columns) {
            lemma_off_line_pair(cells, first, second, x, rows, columns);
        }
    }
    let top = choose|p: Position| #[trigger] cells.contains(p) && p.row == r.min_row;
    let low = choose|p: Position| #[trigger] cells.contains(p) && p.row == r.max_row - 1;
    let left = choose|p: Position| #[trigger] cells.contains(p) && p.column == r.min_column;
    let right = choose|p: Position| #[trigger] cells.contains(p) && p.column == r.max_column - 1;
    assert(on_line(top, first, rows, columns) && on_line(low, first, rows, columns) && on_line(
        left,
        first,
        rows,
        columns,
    ) && on_line(right, first, rows, columns));
    assert forall|f: Position| d.surrounds(f) implies #[trigger] more.contains(f) by {
        let g = moved(f, -step_rows, -step_columns);
        assert(c.surrounds(g));
        assert(cells.contains(g));
        assert(on_line(g, first, rows, columns));
        let before = moved(g, -step_rows, -step_columns);
        let after = moved(g, step_rows, step_columns);
        assert(after == f);
        if c.surrounds(after) {
            assert(cells.contains(f));
        } else if c.surrounds(before) {
            assert(cells.contains(before));
            assert(moved(before, rows, columns) == f);
        } else {
            // the center lies in the cell `g`
            assert(c.row == 2 * g.row && c.column == 2 * g.column);
            if g == member {
                assert(f == first);
            } else {
                let n = lemma_has_neighbour(cells, g, member);
                assert(on_line(n, first, rows, columns));
                assert(n == after || n == before);
                assert(cells.contains(c.mirrored(n)));
                assert(c.mirrored(before) == after);
                assert(c.mirrored(after) == before);
            }
        }
    }
}

/// The case of `lemma_pair_holds_center` in which the second cell lies across
/// from the first and the center moves by a step and a step across.
proof fn lemma_diagonal(cells: Set<Position>, member: Position, first: Position, second: Position)
    requires
        cells.finite(),
        all_in_range(cells),
        valid_shape(cells),
        first.in_range(),
        second.in_range(),
        cells.contains(member),
        !cells.contains(first),
        !cells.contains(second),
        member.adjacent_to(first),
        first.adjacent_to(second),
        (second.row - first.row != 0) == (first.row - member.row == 0),
        symmetric(cells.insert(first).insert(second)),
        carried_pair(
            cells,
            first,
            second,
            second.row - member.row,
            second.column - member.column,
        ),
        center_of(cells.insert(first).insert(second)).row - center_of(cells).row == second.row
            - member.row,
        center_of(cells.insert(first).insert(second)).column - center_of(cells).column
            == second.column - member.column,
    ensures
        holds_center(cells.insert(first).insert(second)),
{
    let more = cells.insert(first).insert(second);
    let c = center_of(cells);
    let d = center_of(more);
    let rows = second.row - member.row;
    let columns = second.column - member.column;
    let step_rows = first.row - member.row;
    let step_columns = first.column - member.column;
    let turn_rows = second.row - first.row;
    let turn_columns = second.column - first.column;
    lemma_bounds_exist(cells);
    lemma_center_range(cells, bounding_of(cells));
    lemma_bounds_exist(more);
    assert(more.contains(first) && more.contains(second));
    lemma_center_range(more, bounding_of(more));
    assert forall|f: Position| d.surrounds(f) implies #[trigger] more.contains(f) by {
        let back = moved(f, -rows, -columns);
        let along = moved(f, -step_rows, -step_columns);
        let across = moved(f, -turn_rows, -turn_columns);
        assert(c.surrounds(f) || c.surrounds(back) || (c.row == 2 * along.row && c.column == 2
            * along.column) || (c.row == 2 * across.row && c.column == 2 * across.column));
        if c.surrounds(f) {
            assert(cells.contains(f));
        } else if c.surrounds(back) {
            assert(cells.contains(back));
            assert(moved(back, rows, columns) == f);
        } else {
            // the center lies in a cell, `g`, and `f` is one of its neighbours
            let g = if c.row == 2 * along.row && c.column == 2 * along.column {
                along
            } else {
                across
            };
            assert(c.surrounds(g));
            assert(cells.contains(g));
            let one = moved(g, step_rows, step_columns);
            let other = moved(g, turn_rows, turn_columns);
            assert(f == one || f == other);
            assert(d.mirrored(one) == other);
            assert(d.mirrored(other) == one);
            if g == member {
                assert(one == first);
                assert(more.contains(one));
            } else {
                let n = lemma_has_neighbour(cells, g, member);
                let m = c.mirrored(n);
                assert(cells.contains(m));
                assert(n == one || n == other || m == one || m == other);
                assert(more.contains(one) || more.contains(other));
            }
            if more.contains(one) {
                assert(more.contains(d.mirrored(one)));
            } else {
                assert(more.contains(d.mirrored(other)));
            }
        }
    }
}

} // verus!

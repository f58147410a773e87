//! Why thinning keeps a galaxy in one piece.
use vstd::prelude::*;

use crate::border::Border;
use crate::galaxy::{
    across,
    all_in_range,
    center_of,
    connected,
    corner_fat,
    edge_fat,
    fat,
    first_fat,
    lemma_bounds_exist,
    lemma_center_range,
    lemma_thinned,
    mirror_symmetric,
    next_fat,
    skeleton_of,
    symmetric,
    thinned,
    valid_shape,
};
use crate::position::{Position, COORDINATE_LIMIT};
use crate::reach::{
    lemma_reachable_chain,
    lemma_reachable_step,
    lemma_within_bounded,
    open_move,
    reachable,
    within,
};
use crate::rectangle::bounding_of;

verus! {

/// Every cell has its mirror through the half-step center `center` among the
/// cells.
pub open spec fn turned(cells: Set<Position>, center: Position) -> bool {
    forall|p: Position| cells.contains(p) ==> cells.contains(#[trigger] center.mirrored(p))
}

/// `p` is fat in one way or the other: it sits in the corner of an L or on the
/// flat side of a T.
pub open spec fn plump(cells: Set<Position>, p: Position) -> bool {
    corner_fat(cells, p) || edge_fat(cells, p)
}

/// Moves among `cells` lead from `a` to `b`.
pub open spec fn linked(cells: Set<Position>, a: Position, b: Position) -> bool {
    reachable(cells, Set::<Border>::empty(), set![a], b)
}

/// What thinning needs of a shape: it is finite and within the coordinate
/// limit, symmetric about the center, connected, and holds the cells around
/// the center.
pub open spec fn thinnable(cells: Set<Position>, center: Position) -> bool {
    &&& cells.finite()
    &&& all_in_range(cells)
    &&& -2 * COORDINATE_LIMIT <= center.row <= 2 * COORDINATE_LIMIT
    &&& -2 * COORDINATE_LIMIT <= center.column <= 2 * COORDINATE_LIMIT
    &&& turned(cells, center)
    &&& connected(cells)
    &&& forall|p: Position| center.surrounds(p) ==> #[trigger] cells.contains(p)
}

/// In a shape that is symmetric about the center, a position near a cell
/// belongs to it just when its mirror does.
proof fn lemma_turned_at(cells: Set<Position>, center: Position, y: Position)
    requires
        all_in_range(cells),
        turned(cells, center),
        -2 * COORDINATE_LIMIT <= center.row <= 2 * COORDINATE_LIMIT,
        -2 * COORDINATE_LIMIT <= center.column <= 2 * COORDINATE_LIMIT,
        -COORDINATE_LIMIT - 1 <= y.row <= COORDINATE_LIMIT + 1,
        -COORDINATE_LIMIT - 1 <= y.column <= COORDINATE_LIMIT + 1,
    ensures
        cells.contains(center.mirrored(y)) == cells.contains(y),
{
    let m = center.mirrored(y);
    if cells.contains(m) {
        assert(cells.contains(center.mirrored(m)));
        assert(center.mirrored(m) == y);
    }
}

/// In a shape that is symmetric about the center, the mirror of a fat cell is
/// fat.
proof fn lemma_plump_turned(cells: Set<Position>, center: Position, x: Position)
    requires
        all_in_range(cells),
        turned(cells, center),
        -2 * COORDINATE_LIMIT <= center.row <= 2 * COORDINATE_LIMIT,
        -2 * COORDINATE_LIMIT <= center.column <= 2 * COORDINATE_LIMIT,
        cells.contains(x),
        plump(cells, x),
    ensures
        plump(cells, center.mirrored(x)),
{
    let m = center.mirrored(x);
    lemma_turned_at(cells, center, x.shift(-1, 0));
    lemma_turned_at(cells, center, x.shift(1, 0));
    lemma_turned_at(cells, center, x.shift(0, -1));
    lemma_turned_at(cells, center, x.shift(0, 1));
    lemma_turned_at(cells, center, x.shift(-1, -1));
    lemma_turned_at(cells, center, x.shift(-1, 1));
    lemma_turned_at(cells, center, x.shift(1, -1));
    lemma_turned_at(cells, center, x.shift(1, 1));
    assert(m.shift(1, 0) == center.mirrored(x.shift(-1, 0)));
    assert(m.shift(-1, 0) == center.mirrored(x.shift(1, 0)));
    assert(m.shift(0, 1) == center.mirrored(x.shift(0, -1)));
    assert(m.shift(0, -1) == center.mirrored(x.shift(0, 1)));
    assert(m.shift(1, 1) == center.mirrored(x.shift(-1, -1)));
    assert(m.shift(1, -1) == center.mirrored(x.shift(-1, 1)));
    assert(m.shift(-1, 1) == center.mirrored(x.shift(1, -1)));
    assert(m.shift(-1, -1) == center.mirrored(x.shift(1, 1)));
}

/// Two cells with a common neighbour among the cells are linked, both ways.
proof fn lemma_hop(cells: Set<Position>, a: Position, mid: Position, b: Position)
    requires
        cells.contains(a),
        cells.contains(mid),
        cells.contains(b),
        a.adjacent_to(mid),
        mid.adjacent_to(b),
    ensures
        linked(cells, a, b),
        linked(cells, b, a),
{
    let none = Set::<Border>::empty();
    assert(open_move(cells, none, a, mid));
    assert(open_move(cells, none, mid, b));
    lemma_reachable_step(cells, none, a, mid);
    lemma_reachable_step(cells, none, mid, b);
    lemma_reachable_chain(cells, none, set![a], mid, b);
    assert(open_move(cells, none, b, mid));
    assert(open_move(cells, none, mid, a));
    lemma_reachable_step(cells, none, b, mid);
    lemma_reachable_step(cells, none, mid, a);
    lemma_reachable_chain(cells, none, set![b], mid, a);
}

/// Around a fat cell that is taken away, its neighbours stay linked: the way
/// from one to another leads through the cells diagonally between them.
proof fn lemma_detour(
    cells: Set<Position>,
    rest: Set<Position>,
    x: Position,
    a: Position,
    b: Position,
)
    requires
        x.in_range(),
        plump(cells, x),
        rest.subset_of(cells),
        forall|dr: int, dc: int|
            #![trigger x.shift(dr, dc)]
            -1 <= dr <= 1 && -1 <= dc <= 1 && (dr != 0 || dc != 0) && cells.contains(
                x.shift(dr, dc),
            ) ==> rest.contains(x.shift(dr, dc)),
        cells.contains(a),
        cells.contains(b),
        x.adjacent_to(a),
        x.adjacent_to(b),
    ensures
        linked(rest, a, b),
{
    let none = Set::<Border>::empty();
    let n = x.shift(-1, 0);
    let s = x.shift(1, 0);
    let w = x.shift(0, -1);
    let e = x.shift(0, 1);
    let nw = x.shift(-1, -1);
    let ne = x.shift(-1, 1);
    let sw = x.shift(1, -1);
    let se = x.shift(1, 1);
    assert(a == n || a == s || a == w || a == e);
    assert(b == n || b == s || b == w || b == e);
    assert(rest.contains(a) && rest.contains(b));
    if a == b {
        assert(within(rest, none, set![a], 0).contains(b));
    } else {
        if cells.contains(n) && cells.contains(w) && cells.contains(nw) {
            lemma_hop(rest, n, nw, w);
        }
        if cells.contains(n) && cells.contains(e) && cells.contains(ne) {
            lemma_hop(rest, n, ne, e);
        }
        if cells.contains(s) && cells.contains(w) && cells.contains(sw) {
            lemma_hop(rest, s, sw, w);
        }
        if cells.contains(s) && cells.contains(e) && cells.contains(se) {
            lemma_hop(rest, s, se, e);
        }
        if corner_fat(cells, x) {
            assert(linked(rest, a, b));
        } else {
            // the two ends of the T are linked by way of its stem
            if !cells.contains(n) {
                lemma_reachable_chain(rest, none, set![w], s, e);
                lemma_reachable_chain(rest, none, set![e], s, w);
            } else if !cells.contains(s) {
                lemma_reachable_chain(rest, none, set![w], n, e);
                lemma_reachable_chain(rest, none, set![e], n, w);
            } else if !cells.contains(w) {
                lemma_reachable_chain(rest, none, set![n], e, s);
                lemma_reachable_chain(rest, none, set![s], e, n);
            } else {
                lemma_reachable_chain(rest, none, set![n], w, s);
                lemma_reachable_chain(rest, none, set![s], w, n);
            }
            assert(linked(rest, a, b));
        }
    }
}

/// `y` has a neighbour among `rest` that moves among `rest` lead to from
/// `from`.
pub open spec fn approached(rest: Set<Position>, from: Position, y: Position) -> bool {
    exists|t: Position| rest.contains(t) && y.adjacent_to(t) && #[trigger] linked(rest, from, t)
}

/// The two positions lie apart: they are neither the same nor neighbours, not
/// even across a corner.
pub open spec fn apart(x: Position, y: Position) -> bool {
    y.row - x.row > 1 || x.row - y.row > 1 || y.column - x.column > 1 || x.column - y.column > 1
}

/// The cells of `gone` can be taken away from `cells` together: each is a fat
/// cell, and no two of them are near each other.
pub open spec fn removable(cells: Set<Position>, gone: Set<Position>) -> bool {
    &&& forall|x: Position| #[trigger] gone.contains(x) ==> cells.contains(x) && plump(cells, x)
    &&& forall|x: Position, y: Position|
        #![trigger gone.contains(x), gone.contains(y)]
        gone.contains(x) && gone.contains(y) && x != y ==> apart(x, y)
}

/// Fat cells that lie apart are taken away from a shape. Whatever moves led to
/// from `from` before, moves among the rest lead to, or to a neighbour of it
/// where it was taken away.
proof fn lemma_rest_within(
    cells: Set<Position>,
    gone: Set<Position>,
    from: Position,
    q: Position,
    n: nat,
)
    requires
        all_in_range(cells),
        removable(cells, gone),
        cells.difference(gone).contains(from),
        within(cells, Set::<Border>::empty(), set![from], n).contains(q),
    ensures
        cells.difference(gone).contains(q) ==> linked(cells.difference(gone), from, q),
        gone.contains(q) ==> approached(cells.difference(gone), from, q),
    decreases n,
{
    let none = Set::<Border>::empty();
    let rest = cells.difference(gone);
    if n == 0 {
        assert(q == from);
        assert(within(rest, none, set![from], 0).contains(from));
    } else {
        let nearer = within(cells, none, set![from], (n - 1) as nat);
        if nearer.contains(q) {
            lemma_rest_within(cells, gone, from, q, (n - 1) as nat);
        } else {
            let p = choose|p: Position| nearer.contains(p) && #[trigger] open_move(
                cells,
                none,
                p,
                q,
            );
            lemma_within_bounded(cells, none, set![from], (n - 1) as nat);
            assert(cells.contains(p));
            assert(cells.contains(q));
            lemma_rest_within(cells, gone, from, p, (n - 1) as nat);
            if gone.contains(q) {
                if gone.contains(p) {
                    assert(apart(p, q));
                }
                assert(rest.contains(p));
                assert(q.adjacent_to(p));
                assert(approached(rest, from, q));
            } else {
                assert(rest.contains(q));
                if rest.contains(p) {
                    assert(open_move(rest, none, p, q));
                    lemma_reachable_step(rest, none, p, q);
                    lemma_reachable_chain(rest, none, set![from], p, q);
                } else {
                    assert(gone.contains(p));
                    let t = choose|t: Position|
                        rest.contains(t) && p.adjacent_to(t) && #[trigger] linked(rest, from, t);
                    assert forall|dr: int, dc: int|
                        #![trigger p.shift(dr, dc)]
                        -1 <= dr <= 1 && -1 <= dc <= 1 && (dr != 0 || dc != 0) && cells.contains(
                            p.shift(dr, dc),
                        ) implies rest.contains(p.shift(dr, dc)) by {
                        if gone.contains(p.shift(dr, dc)) {
                            assert(apart(p, p.shift(dr, dc)));
                        }
                    }
                    lemma_detour(cells, rest, p, t, q);
                    lemma_reachable_chain(rest, none, set![from], t, q);
                }
            }
        }
    }
}

/// A connected shape from which fat cells that lie apart are taken away is
/// connected.
proof fn lemma_rest_connected(cells: Set<Position>, gone: Set<Position>)
    requires
        all_in_range(cells),
        connected(cells),
        removable(cells, gone),
    ensures
        connected(cells.difference(gone)),
{
    let none = Set::<Border>::empty();
    let rest = cells.difference(gone);
    assert forall|a: Position, b: Position| rest.contains(a) && rest.contains(b) implies #[trigger] reachable(
        rest,
        Set::empty(),
        set![a],
        b,
    ) by {
        assert(reachable(cells, none, set![a], b));
        let n = choose|n: nat| within(cells, none, set![a], n).contains(b);
        lemma_rest_within(cells, gone, a, b, n);
    }
}

/// Thinning, without regard to mirrors across the axes, keeps a shape
/// thinnable.
proof fn lemma_thinned_thinnable(cells: Set<Position>, center: Position, corner: bool, p: Position)
    requires
        thinnable(cells, center),
        fat(cells, center, corner, p),
    ensures
        thinnable(thinned(cells, center, false, p), center),
{
    let m = center.mirrored(p);
    let rest = thinned(cells, center, false, p);
    let gone = set![p].insert(m);
    assert(rest =~= cells.difference(gone));
    lemma_thinned(cells, center, false, p);
    assert(cells.contains(m));
    assert(center.mirrored(m) == p);
    lemma_plump_turned(cells, center, p);
    assert(apart(p, m));
    assert(removable(cells, gone));
    lemma_rest_connected(cells, gone);
    assert forall|q: Position| rest.contains(q) implies rest.contains(
        #[trigger] center.mirrored(q),
    ) by {
        assert(cells.contains(center.mirrored(q)));
        assert(center.mirrored(center.mirrored(q)) == q);
    }
}

/// The skeleton that thinning without regard to mirrors across the axes
/// leaves of a thinnable shape is connected.
proof fn lemma_skeleton_thinnable(cells: Set<Position>, center: Position)
    requires
        thinnable(cells, center),
    ensures
        thinnable(skeleton_of(cells, center, false), center),
    decreases cells.len(),
{
    match next_fat(cells, center) {
        Some(p) => {
            let corner = exists|q: Position| first_fat(cells, center, true, q);
            assert(first_fat(cells, center, corner, p));
            lemma_thinned(cells, center, false, p);
            lemma_thinned_thinnable(cells, center, corner, p);
            lemma_skeleton_thinnable(thinned(cells, center, false, p), center);
        },
        None => {},
    }
}

/// Every cell has its mirror across the vertical axis through the half-step
/// center `center` among the cells.
pub open spec fn crossed(cells: Set<Position>, center: Position) -> bool {
    forall|p: Position| cells.contains(p) ==> cells.contains(#[trigger] across(center, p))
}

/// What thinning with regard to mirrors across the axes needs of a shape: it
/// is thinnable and mirror symmetric, and its center lies in a cell, so that
/// no cell is a neighbour of one of its mirrors.
pub open spec fn evenly_thinnable(cells: Set<Position>, center: Position) -> bool {
    &&& thinnable(cells, center)
    &&& crossed(cells, center)
    &&& center.row % 2 == 0
    &&& center.column % 2 == 0
}

/// In a mirror symmetric shape, a position near a cell belongs to it just
/// when its mirror across the axis does.
proof fn lemma_crossed_at(cells: Set<Position>, center: Position, y: Position)
    requires
        all_in_range(cells),
        crossed(cells, center),
        -2 * COORDINATE_LIMIT <= center.column <= 2 * COORDINATE_LIMIT,
        -COORDINATE_LIMIT - 1 <= y.row <= COORDINATE_LIMIT + 1,
        -COORDINATE_LIMIT - 1 <= y.column <= COORDINATE_LIMIT + 1,
    ensures
        cells.contains(across(center, y)) == cells.contains(y),
{
    let m = across(center, y);
    if cells.contains(m) {
        assert(cells.contains(across(center, m)));
        assert(across(center, m) == y);
    }
}

/// In a mirror symmetric shape, the mirror of a fat cell across the axis is
/// fat.
proof fn lemma_plump_crossed(cells: Set<Position>, center: Position, x: Position)
    requires
        all_in_range(cells),
        crossed(cells, center),
        -2 * COORDINATE_LIMIT <= center.column <= 2 * COORDINATE_LIMIT,
        cells.contains(x),
        plump(cells, x),
    ensures
        plump(cells, across(center, x)),
{
    let m = across(center, x);
    lemma_crossed_at(cells, center, x.shift(-1, 0));
    lemma_crossed_at(cells, center, x.shift(1, 0));
    lemma_crossed_at(cells, center, x.shift(0, -1));
    lemma_crossed_at(cells, center, x.shift(0, 1));
    lemma_crossed_at(cells, center, x.shift(-1, -1));
    lemma_crossed_at(cells, center, x.shift(-1, 1));
    lemma_crossed_at(cells, center, x.shift(1, -1));
    lemma_crossed_at(cells, center, x.shift(1, 1));
    assert(m.shift(-1, 0) == across(center, x.shift(-1, 0)));
    assert(m.shift(1, 0) == across(center, x.shift(1, 0)));
    assert(m.shift(0, 1) == across(center, x.shift(0, -1)));
    assert(m.shift(0, -1) == across(center, x.shift(0, 1)));
    assert(m.shift(-1, 1) == across(center, x.shift(-1, -1)));
    assert(m.shift(-1, -1) == across(center, x.shift(-1, 1)));
    assert(m.shift(1, 1) == across(center, x.shift(1, -1)));
    assert(m.shift(1, -1) == across(center, x.shift(1, 1)));
}

/// Thinning with regard to mirrors across the axes keeps a mirror symmetric
/// shape around a cell as it is: the fat cell goes with all its mirrors, which
/// are fat as well and lie apart.
proof fn lemma_thinned_evenly(cells: Set<Position>, center: Position, corner: bool, p: Position)
    requires
        evenly_thinnable(cells, center),
        fat(cells, center, corner, p),
    ensures
        evenly_thinnable(thinned(cells, center, true, p), center),
{
    let m = center.mirrored(p);
    let side = across(center, p);
    let along = center.mirrored(side);
    let rest = thinned(cells, center, true, p);
    let gone = set![p].insert(m).insert(side).insert(along);
    assert(side == (Position { row: p.row, column: m.column }));
    assert(along == (Position { row: m.row, column: p.column }));
    assert(!p.adjacent_to(side) && !p.adjacent_to(along));
    assert(rest =~= cells.difference(gone));
    lemma_thinned(cells, center, true, p);
    assert(cells.contains(m));
    assert(cells.contains(side));
    assert(cells.contains(along));
    lemma_plump_turned(cells, center, p);
    lemma_plump_crossed(cells, center, p);
    lemma_plump_turned(cells, center, side);
    assert(removable(cells, gone)) by {
        assert forall|x: Position, y: Position|
            #![trigger gone.contains(x), gone.contains(y)]
            gone.contains(x) && gone.contains(y) && x != y implies apart(x, y) by {}
    }
    lemma_rest_connected(cells, gone);
    assert forall|q: Position| rest.contains(q) implies rest.contains(
        #[trigger] center.mirrored(q),
    ) by {
        assert(cells.contains(center.mirrored(q)));
        assert(center.mirrored(center.mirrored(q)) == q);
    }
    assert forall|q: Position| rest.contains(q) implies rest.contains(
        #[trigger] across(center, q),
    ) by {
        assert(cells.contains(across(center, q)));
        assert(across(center, across(center, q)) == q);
    }
    assert forall|q: Position| center.surrounds(q) implies #[trigger] rest.contains(q) by {
        assert(cells.contains(q));
    }
}

/// The skeleton that thinning with regard to mirrors across the axes leaves
/// of a mirror symmetric shape around a cell is connected.
proof fn lemma_skeleton_evenly(cells: Set<Position>, center: Position)
    requires
        evenly_thinnable(cells, center),
    ensures
        evenly_thinnable(skeleton_of(cells, center, true), center),
    decreases cells.len(),
{
    match next_fat(cells, center) {
        Some(p) => {
            let corner = exists|q: Position| first_fat(cells, center, true, q);
            assert(first_fat(cells, center, corner, p));
            lemma_thinned(cells, center, true, p);
            lemma_thinned_evenly(cells, center, corner, p);
            lemma_skeleton_evenly(thinned(cells, center, true, p), center);
        },
        None => {},
    }
}

/// The skeleton of a valid galaxy is connected and symmetric about the center
/// of the galaxy where the galaxy is not mirror symmetric, and where it is
/// mirror symmetric and its center lies in a cell.
pub proof fn lemma_skeleton_connected(cells: Set<Position>)
    requires
        cells.finite(),
        all_in_range(cells),
        valid_shape(cells),
    ensures
        connected(skeleton_of(cells, center_of(cells), false)),
        turned(skeleton_of(cells, center_of(cells), false), center_of(cells)),
        mirror_symmetric(cells) && center_of(cells).row % 2 == 0 && center_of(cells).column % 2
            == 0 ==> connected(skeleton_of(cells, center_of(cells), true)) && turned(
            skeleton_of(cells, center_of(cells), true),
            center_of(cells),
        ),
{
    lemma_bounds_exist(cells);
    lemma_center_range(cells, bounding_of(cells));
    assert(thinnable(cells, center_of(cells)));
    lemma_skeleton_thinnable(cells, center_of(cells));
    if mirror_symmetric(cells) && center_of(cells).row % 2 == 0 && center_of(cells).column % 2
        == 0 {
        assert(evenly_thinnable(cells, center_of(cells)));
        lemma_skeleton_evenly(cells, center_of(cells));
    }
}

} // verus!

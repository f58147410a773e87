//! Galaxies: sets of cells, what makes one valid, and the analysis of its shape.
use vstd::prelude::*;
use vstd::set_lib::lemma_len_subset;

use crate::border::Border;
use crate::ordered::{ascending, Ordered, SortedMap, SortedSet};
use crate::position::{footprint_of, in_turn, Position, COORDINATE_LIMIT};
use crate::reach::{
    at_distance, distances, lemma_prefix_contains, lemma_push_contains, lemma_reachable_back,
    lemma_reachable_chain, lemma_reachable_more_cells, lemma_reachable_step,
    lemma_within_bounded, open_move, reachable, within, Terrain,
};
use crate::rectangle::{bounding_of, lemma_bounding, Rectangle};
use crate::text::{chars_of, draw, drawing, lines_of, marked, split_lines, string_of, Bars};
use crate::thinning::lemma_skeleton_connected;

verus! {

/// The half-step center of `cells`: the sum of the first and the last row of
/// their bounding rectangle, and likewise for the columns. Of no cells it is the
/// origin.
pub open spec fn center_of(cells: Set<Position>) -> Position {
    if cells.is_empty() {
        Position { row: 0, column: 0 }
    } else {
        let r = bounding_of(cells);
        Position {
            row: (r.min_row + r.max_row - 1) as i32,
            column: (r.min_column + r.max_column - 1) as i32,
        }
    }
}

/// Every cell has its mirror through the center among the cells.
pub open spec fn symmetric(cells: Set<Position>) -> bool {
    forall|p: Position| cells.contains(p) ==> cells.contains(#[trigger] center_of(cells).mirrored(p))
}

/// The cells that surround the center are all there.
pub open spec fn holds_center(cells: Set<Position>) -> bool {
    forall|p: Position| center_of(cells).surrounds(p) ==> #[trigger] cells.contains(p)
}

/// From any cell, moves between neighbouring cells lead to every cell.
pub open spec fn connected(cells: Set<Position>) -> bool {
    forall|a: Position, b: Position|
        cells.contains(a) && cells.contains(b) ==> #[trigger] reachable(
            cells,
            Set::empty(),
            set![a],
            b,
        )
}

/// The cells form a valid galaxy: there is one, they hold their center, they are
/// connected and symmetric.
pub open spec fn valid_shape(cells: Set<Position>) -> bool {
    &&& !cells.is_empty()
    &&& holds_center(cells)
    &&& connected(cells)
    &&& symmetric(cells)
}

/// Every cell within the coordinate limit.
pub open spec fn all_in_range(cells: Set<Position>) -> bool {
    forall|p: Position| #[trigger] cells.contains(p) ==> p.in_range()
}

/// The center of cells within the limit lies within twice the limit, and a cell
/// mirrored through it within three times.
pub proof fn lemma_center_range(cells: Set<Position>, r: Rectangle)
    requires
        all_in_range(cells),
        r.bounds(cells),
    ensures
        -COORDINATE_LIMIT <= r.min_row <= r.max_row <= COORDINATE_LIMIT + 1,
        -COORDINATE_LIMIT <= r.min_column <= r.max_column <= COORDINATE_LIMIT + 1,
        -2 * COORDINATE_LIMIT <= center_of(cells).row <= 2 * COORDINATE_LIMIT,
        -2 * COORDINATE_LIMIT <= center_of(cells).column <= 2 * COORDINATE_LIMIT,
        !cells.is_empty() ==> center_of(cells).row == r.min_row + r.max_row - 1
            && center_of(cells).column == r.min_column + r.max_column - 1,
{
    lemma_bounding(cells, r);
    if !cells.is_empty() {
        let a = choose|p: Position| #[trigger] cells.contains(p) && p.row == r.min_row;
        let b = choose|p: Position| #[trigger] cells.contains(p) && p.row == r.max_row - 1;
        let c = choose|p: Position| #[trigger] cells.contains(p) && p.column == r.min_column;
        let d = choose|p: Position| #[trigger] cells.contains(p) && p.column == r.max_column - 1;
        assert(r.contains(a) && r.contains(b) && r.contains(c) && r.contains(d));
    }
}

/// Every cell has its mirror across the vertical axis through the center among
/// the cells.
pub open spec fn mirror_symmetric(cells: Set<Position>) -> bool {
    forall|p: Position| cells.contains(p) ==> cells.contains(#[trigger] across(center_of(cells), p))
}

/// The mirror of `p` across the vertical axis through the half-step center
/// `center`.
pub open spec fn across(center: Position, p: Position) -> Position {
    Position { row: p.row, column: (center.column - p.column) as i32 }
}

/// `p` belongs to `cells` and bends: it has exactly two neighbours among them,
/// and they are perpendicular.
pub open spec fn turn(cells: Set<Position>, p: Position) -> bool {
    let up = cells.contains(p.shift(-1, 0));
    let down = cells.contains(p.shift(1, 0));
    let left = cells.contains(p.shift(0, -1));
    let right = cells.contains(p.shift(0, 1));
    cells.contains(p) && ((up && right && !down && !left) || (!up && right && down && !left) || (
    !up && !right && down && left) || (up && !right && !down && left))
}

/// `p` belongs to `cells` and has at most one neighbour among them.
pub open spec fn leaf(cells: Set<Position>, p: Position) -> bool {
    let up = cells.contains(p.shift(-1, 0));
    let down = cells.contains(p.shift(1, 0));
    let left = cells.contains(p.shift(0, -1));
    let right = cells.contains(p.shift(0, 1));
    cells.contains(p) && ((up && !right && !down && !left) || (!up && right && !down && !left) || (
    !up && !right && down && !left) || (!up && !right && !down && left) || (!up && !right && !down
        && !left))
}

/// Every cell bends or is a leaf, and at least one bends.
pub open spec fn zig_zag(cells: Set<Position>) -> bool {
    &&& forall|p: Position| #[trigger] cells.contains(p) ==> turn(cells, p) || leaf(cells, p)
    &&& exists|p: Position| #[trigger] cells.contains(p) && turn(cells, p)
}

/// `p` does not belong to `cells`, but its four neighbours do.
pub open spec fn hole(cells: Set<Position>, p: Position) -> bool {
    &&& !cells.contains(p)
    &&& cells.contains(p.shift(-1, 0))
    &&& cells.contains(p.shift(1, 0))
    &&& cells.contains(p.shift(0, -1))
    &&& cells.contains(p.shift(0, 1))
}

/// `p` sits in the corner of an L: it has exactly two neighbours, they are
/// perpendicular, and the cell diagonally between them is there too.
pub open spec fn corner_fat(cells: Set<Position>, p: Position) -> bool {
    let n = cells.contains(p.shift(-1, 0));
    let w = cells.contains(p.shift(0, -1));
    let s = cells.contains(p.shift(1, 0));
    let e = cells.contains(p.shift(0, 1));
    ||| (n && w && !s && !e && cells.contains(p.shift(-1, -1)))
    ||| (n && !w && !s && e && cells.contains(p.shift(-1, 1)))
    ||| (!n && w && s && !e && cells.contains(p.shift(1, -1)))
    ||| (!n && !w && s && e && cells.contains(p.shift(1, 1)))
}

/// `p` sits on the flat side of a T: it has exactly three neighbours, and the two
/// cells diagonally between them are there too.
pub open spec fn edge_fat(cells: Set<Position>, p: Position) -> bool {
    let n = cells.contains(p.shift(-1, 0));
    let w = cells.contains(p.shift(0, -1));
    let s = cells.contains(p.shift(1, 0));
    let e = cells.contains(p.shift(0, 1));
    ||| (!n && w && s && e && cells.contains(p.shift(1, -1)) && cells.contains(p.shift(1, 1)))
    ||| (n && !w && s && e && cells.contains(p.shift(-1, 1)) && cells.contains(p.shift(1, 1)))
    ||| (n && w && !s && e && cells.contains(p.shift(-1, -1)) && cells.contains(p.shift(-1, 1)))
    ||| (n && w && s && !e && cells.contains(p.shift(-1, -1)) && cells.contains(p.shift(1, -1)))
}

/// `p` is a cell away from the center that is fat in the given way: in a corner
/// if `corner`, on an edge if not.
pub open spec fn fat(cells: Set<Position>, center: Position, corner: bool, p: Position) -> bool {
    &&& cells.contains(p)
    &&& !center.surrounds(p)
    &&& if corner {
        corner_fat(cells, p)
    } else {
        edge_fat(cells, p)
    }
}

/// `p` is the first fat cell of its kind in row-major order.
pub open spec fn first_fat(
    cells: Set<Position>,
    center: Position,
    corner: bool,
    p: Position,
) -> bool {
    &&& fat(cells, center, corner, p)
    &&& forall|q: Position| #[trigger] fat(cells, center, corner, q) ==> !q.precedes(p)
}

/// The cell that thinning takes next: the first one fat in a corner, or with no
/// such cell the first one fat on an edge.
pub open spec fn next_fat(cells: Set<Position>, center: Position) -> Option<Position> {
    if exists|p: Position| first_fat(cells, center, true, p) {
        Some(choose|p: Position| first_fat(cells, center, true, p))
    } else if exists|p: Position| first_fat(cells, center, false, p) {
        Some(choose|p: Position| first_fat(cells, center, false, p))
    } else {
        None
    }
}

/// `cells` without the fat cell `p` and its mirror through the center; where
/// `mirror` holds and `p` is not next to its mirrors across the two axes, without
/// those either.
pub open spec fn thinned(
    cells: Set<Position>,
    center: Position,
    mirror: bool,
    p: Position,
) -> Set<Position> {
    let m = center.mirrored(p);
    let across = Position { row: p.row, column: m.column };
    let along = Position { row: m.row, column: p.column };
    let pair = cells.remove(p).remove(m);
    if mirror && !p.adjacent_to(across) && !p.adjacent_to(along) {
        pair.remove(across).remove(along)
    } else {
        pair
    }
}

/// What is left of `cells` when fat cells have been taken away, one after the
/// other, until none is left.
pub open spec fn skeleton_of(cells: Set<Position>, center: Position, mirror: bool) -> Set<
    Position,
>
    decreases cells.len(),
    when cells.finite()
{
    match next_fat(cells, center) {
        Some(p) => {
            proof {
                lemma_thinned(cells, center, mirror, p);
            }
            skeleton_of(thinned(cells, center, mirror, p), center, mirror)
        },
        None => cells,
    }
}

/// Thinning takes cells away, at least the fat one, and none around the center.
pub proof fn lemma_thinned(cells: Set<Position>, center: Position, mirror: bool, p: Position)
    requires
        cells.finite(),
        cells.contains(p),
    ensures
        thinned(cells, center, mirror, p).finite(),
        thinned(cells, center, mirror, p).subset_of(cells),
        thinned(cells, center, mirror, p).len() < cells.len(),
        !center.surrounds(p) && p.in_range() && -2 * COORDINATE_LIMIT <= center.row <= 2
            * COORDINATE_LIMIT && -2 * COORDINATE_LIMIT <= center.column <= 2 * COORDINATE_LIMIT
            ==> forall|q: Position|
            center.surrounds(q) && cells.contains(q) ==> #[trigger] thinned(
                cells,
                center,
                mirror,
                p,
            ).contains(q),
{
    let t = thinned(cells, center, mirror, p);
    assert(t.subset_of(cells.remove(p)));
    lemma_len_subset(t, cells.remove(p));
}

/// The first fat cell of a kind is unique.
pub proof fn lemma_first_fat_unique(
    cells: Set<Position>,
    center: Position,
    corner: bool,
    p: Position,
    q: Position,
)
    requires
        first_fat(cells, center, corner, p),
        first_fat(cells, center, corner, q),
    ensures
        p == q,
{
}

/// The skeleton is part of the shape and keeps the cells around the center.
pub proof fn lemma_skeleton(cells: Set<Position>, center: Position, mirror: bool)
    requires
        cells.finite(),
    ensures
        skeleton_of(cells, center, mirror).finite(),
        skeleton_of(cells, center, mirror).subset_of(cells),
        skeleton_of(cells, center, mirror).len() <= cells.len(),
        next_fat(skeleton_of(cells, center, mirror), center) is None,
        all_in_range(cells) && -2 * COORDINATE_LIMIT <= center.row <= 2 * COORDINATE_LIMIT && -2
            * COORDINATE_LIMIT <= center.column <= 2 * COORDINATE_LIMIT ==> forall|q: Position|
            center.surrounds(q) && cells.contains(q) ==> #[trigger] skeleton_of(
                cells,
                center,
                mirror,
            ).contains(q),
    decreases cells.len(),
{
    match next_fat(cells, center) {
        Some(p) => {
            let corner = exists|p: Position| first_fat(cells, center, true, p);
            assert(first_fat(cells, center, corner, p));
            lemma_thinned(cells, center, mirror, p);
            let t = thinned(cells, center, mirror, p);
            lemma_skeleton(t, center, mirror);
            lemma_len_subset(skeleton_of(t, center, mirror), cells);
            if all_in_range(cells) && -2 * COORDINATE_LIMIT <= center.row <= 2 * COORDINATE_LIMIT
                && -2 * COORDINATE_LIMIT <= center.column <= 2 * COORDINATE_LIMIT {
                assert forall|q: Position|
                    center.surrounds(q) && cells.contains(q) implies #[trigger] skeleton_of(
                    cells,
                    center,
                    mirror,
                ).contains(q) by {
                    assert(t.contains(q));
                }
            }
        },
        None => {},
    }
}

/// The arms of the glyph at the corner whose lower right cell is `corner`: an arm
/// stands where one of the two cells beside it belongs to `cells` and the other
/// does not.
pub open spec fn outline_bars(cells: Set<Position>, corner: Position) -> Bars {
    let bottom_right = cells.contains(corner);
    let bottom_left = cells.contains(corner.shift(0, -1));
    let top_left = cells.contains(corner.shift(-1, -1));
    let top_right = cells.contains(corner.shift(-1, 0));
    Bars {
        top: top_left != top_right,
        right: top_right != bottom_right,
        bottom: bottom_left != bottom_right,
        left: top_left != bottom_left,
    }
}

/// The glyphs of the corners of the cells of `bounds`, row by row.
pub open spec fn outline_rows(cells: Set<Position>, bounds: Rectangle) -> Seq<Seq<Bars>> {
    Seq::new(
        (bounds.rows() + 1) as nat,
        |r: int|
            Seq::new(
                (bounds.columns() + 1) as nat,
                |c: int|
                    outline_bars(
                        cells,
                        Position {
                            row: (bounds.min_row + r) as i32,
                            column: (bounds.min_column + c) as i32,
                        },
                    ),
            ),
    )
}

/// A set of cells.
#[derive(Clone, Debug, PartialEq, Eq, Hash)]
pub struct Galaxy {
    positions: SortedSet<Position>,
}

impl View for Galaxy {
    type V = Set<Position>;

    closed spec fn view(&self) -> Set<Position> {
        self.positions@
    }
}

impl Terrain for Galaxy {
    open spec fn valid(&self) -> bool {
        self.wf()
    }

    open spec fn cells(&self) -> Set<Position> {
        self@
    }

    open spec fn walls(&self) -> Set<Border> {
        Set::empty()
    }

    proof fn lemma_terrain(&self) {
    }

    fn steps_from(&self, from: &Position) -> (targets: Vec<Position>) {
        self.get_neighbours(from)
    }
}

impl Galaxy {
    /// The cells in row-major order.
    pub closed spec fn elements(&self) -> Seq<Position> {
        self.positions.elements()
    }

    /// The cells are held in row-major order.
    pub closed spec fn ordered(&self) -> bool {
        self.positions.wf()
    }

    /// The galaxy is well formed: its cells are held in order and all lie within
    /// the coordinate limit.
    pub open spec fn wf(&self) -> bool {
        &&& self.ordered()
        &&& self@.finite()
        &&& all_in_range(self@)
    }

    /// `elements` lists the cells of a well-formed galaxy, each once, in row-major
    /// order.
    pub proof fn lemma_elements(&self)
        requires
            self.ordered(),
        ensures
            ascending(self.elements()),
            self.elements().no_duplicates(),
            self.elements().to_set() == self@,
            self.elements().len() == self@.len(),
            self@.finite(),
    {
        self.positions.lemma_size();
    }

    /// The galaxy without cells.
    pub fn new() -> (galaxy: Galaxy)
        ensures
            galaxy.wf(),
            galaxy@ == Set::<Position>::empty(),
    {
        Galaxy { positions: SortedSet::new() }
    }

    /// The galaxy of the given cells.
    pub fn from_positions(cells: &Vec<Position>) -> (galaxy: Galaxy)
        requires
            forall|i: int| 0 <= i < cells.len() ==> (#[trigger] cells[i]).in_range(),
        ensures
            galaxy.wf(),
            galaxy@ == cells@.to_set(),
    {
        let mut positions: SortedSet<Position> = SortedSet::new();
        let mut i: usize = 0;
        while i < cells.len()
            invariant
                i <= cells.len(),
                positions.wf(),
                positions@ == cells@.subrange(0, i as int).to_set(),
            decreases cells.len() - i,
        {
            proof {
                lemma_prefix_contains(cells@, i as int);
            }
            positions.insert(cells[i]);
            i += 1;
            assert(positions@ =~= cells@.subrange(0, i as int).to_set());
        }
        assert(cells@.subrange(0, cells.len() as int) =~= cells@);
        proof {
            positions.lemma_size();
            assert forall|p: Position| #[trigger] positions@.contains(p) implies p.in_range() by {
                let k = choose|k: int| 0 <= k < cells@.len() && cells@[k] == p;
            }
        }
        Galaxy { positions }
    }

    /// The galaxy of the single cell `p`.
    pub fn from_position(p: Position) -> (galaxy: Galaxy)
        requires
            p.in_range(),
        ensures
            galaxy.wf(),
            galaxy@ == set![p],
    {
        let mut positions: SortedSet<Position> = SortedSet::new();
        positions.insert(p);
        proof {
            positions.lemma_size();
            assert(positions@ =~= set![p]);
        }
        Galaxy { positions }
    }

    /// The galaxy of all cells of `rectangle`.
    pub fn from_rectangle(rectangle: &Rectangle) -> (galaxy: Galaxy)
        requires
            rectangle.cell_count() <= usize::MAX,
            all_in_range(rectangle.cells()),
        ensures
            galaxy.wf(),
            galaxy@ == rectangle.cells(),
    {
        let cells = rectangle.positions();
        proof {
            assert forall|i: int| 0 <= i < cells.len() implies (#[trigger] cells[i]).in_range() by {
                assert(cells@.contains(cells[i]));
                assert(rectangle.cells().contains(cells[i]));
            }
        }
        let galaxy = Galaxy::from_positions(&cells);
        assert(galaxy@ =~= rectangle.cells());
        galaxy
    }

    /// A copy of this galaxy.
    pub fn copy(&self) -> (galaxy: Galaxy)
        ensures
            galaxy@ == self@,
            galaxy.elements() == self.elements(),
            galaxy.ordered() == self.ordered(),
            galaxy.wf() == self.wf(),
    {
        Galaxy { positions: self.positions.copy() }
    }

    /// The number of cells.
    pub fn size(&self) -> (n: usize)
        requires
            self.wf(),
        ensures
            n == self@.len(),
    {
        proof {
            self.positions.lemma_size();
        }
        self.positions.len()
    }

    pub fn is_empty(&self) -> (b: bool)
        ensures
            b == self@.is_empty(),
    {
        self.positions.is_empty()
    }

    pub fn contains_position(&self, p: &Position) -> (b: bool)
        requires
            self.wf(),
        ensures
            b == self@.contains(*p),
    {
        self.positions.contains(p)
    }

    /// Adds `p`, whatever that does to the validity of the galaxy.
    pub fn add_position(&mut self, p: Position)
        requires
            old(self).wf(),
            p.in_range(),
        ensures
            final(self).wf(),
            final(self)@ == old(self)@.insert(p),
    {
        self.positions.insert(p);
    }

    /// Removes `p`, whatever that does to the validity of the galaxy.
    pub fn remove_position(&mut self, p: &Position)
        requires
            old(self).wf(),
        ensures
            final(self).wf(),
            final(self)@ == old(self)@.remove(*p),
    {
        self.positions.remove(p);
    }

    /// A copy of this galaxy with `p` added.
    pub fn with_position(&self, p: &Position) -> (galaxy: Galaxy)
        requires
            self.wf(),
            p.in_range(),
        ensures
            galaxy.wf(),
            galaxy@ == self@.insert(*p),
    {
        let mut galaxy = self.copy();
        galaxy.add_position(*p);
        galaxy
    }

    /// A copy of this galaxy with `p` removed.
    pub fn without_position(&self, p: &Position) -> (galaxy: Galaxy)
        requires
            self.wf(),
        ensures
            galaxy.wf(),
            galaxy@ == self@.remove(*p),
    {
        let mut galaxy = self.copy();
        galaxy.remove_position(p);
        galaxy
    }

    /// The cells in row-major order.
    pub fn get_positions(&self) -> (cells: Vec<Position>)
        ensures
            cells@ == self.elements(),
    {
        self.positions.to_vec()
    }

    /// Whether this galaxy has the same cells as `other`.
    pub fn same_cells(&self, other: &Galaxy) -> (b: bool)
        requires
            self.wf(),
            other.wf(),
        ensures
            b == (self@ == other@),
    {
        self.positions.same_as(&other.positions)
    }

    /// The neighbours of `p` that belong to the galaxy, in the order up, down,
    /// left, right.
    pub fn get_neighbours(&self, p: &Position) -> (neighbours: Vec<Position>)
        requires
            self.wf(),
            i32::MIN < p.row < i32::MAX,
            i32::MIN < p.column < i32::MAX,
        ensures
            forall|q: Position|
                #![trigger neighbours@.contains(q)]
                neighbours@.contains(q) <==> open_move(self@, Set::empty(), *p, q),
            forall|q: Position|
                #![trigger neighbours@.contains(q)]
                neighbours@.contains(q) <==> p.adjacent_to(q) && self@.contains(q),
            neighbours@.len() <= 4,
            in_turn(*p, neighbours@),
    {
        let around = p.adjacent();
        let mut neighbours: Vec<Position> = Vec::with_capacity(4);
        let mut i: usize = 0;
        while i < around.len()
            invariant
                self.wf(),
                i <= around.len() == 4,
                in_turn(*p, around@),
                in_turn(*p, neighbours@),
                forall|k: int, j: int|
                    0 <= k < neighbours@.len() && i <= j < around@.len() ==> p.turn_of(
                        #[trigger] neighbours@[k],
                    ) < p.turn_of(#[trigger] around@[j]),
                neighbours@.len() <= i,
                forall|q: Position| #[trigger] around@.contains(q) <==> p.adjacent_to(q),
                forall|q: Position|
                    #![trigger neighbours@.contains(q)]
                    neighbours@.contains(q) <==> around@.subrange(0, i as int).contains(q)
                        && self@.contains(q),
            decreases around.len() - i,
        {
            let q = around[i];
            proof {
                lemma_prefix_contains(around@, i as int);
                lemma_push_contains(neighbours@, q);
            }
            if self.positions.contains(&q) {
                neighbours.push(q);
            }
            i += 1;
        }
        assert(around@.subrange(0, 4) =~= around@);
        neighbours
    }

    /// The smallest rectangle that holds the galaxy.
    pub fn get_bounding_rectangle(&self) -> (r: Rectangle)
        requires
            self.wf(),
        ensures
            r.bounds(self@),
            r == bounding_of(self@),
    {
        proof {
            self.lemma_elements();
            assert forall|i: int| 0 <= i < self.elements().len() implies (
            #[trigger] self.elements()[i]).row < i32::MAX && self.elements()[i].column
                < i32::MAX by {
                assert(self@.contains(self.elements()[i]));
            }
        }
        let r = Rectangle::bounding_rectangle(self.positions.as_vec());
        proof {
            lemma_bounding(self@, r);
        }
        r
    }

    /// The center of the galaxy in half steps: the center of `[(0, 0)]` is
    /// `(0, 0)`, that of `[(0, 0), (0, 1)]` is `(0, 1)` and that of `[(0, 1)]` is
    /// `(0, 2)`. Of an empty galaxy it is `(0, 0)`.
    pub fn center(&self) -> (c: Position)
        requires
            self.wf(),
        ensures
            c == center_of(self@),
            -2 * COORDINATE_LIMIT <= c.row <= 2 * COORDINATE_LIMIT,
            -2 * COORDINATE_LIMIT <= c.column <= 2 * COORDINATE_LIMIT,
    {
        let r = self.get_bounding_rectangle();
        proof {
            lemma_center_range(self@, r);
        }
        if self.positions.is_empty() {
            Position { row: 0, column: 0 }
        } else {
            Position { row: r.min_row + r.max_row - 1, column: r.min_column + r.max_column - 1 }
        }
    }

    /// Mirrors `p` through the center of the galaxy.
    pub fn mirror_position(&self, p: &Position) -> (m: Position)
        requires
            self.wf(),
            i32::MIN <= center_of(self@).row - p.row <= i32::MAX,
            i32::MIN <= center_of(self@).column - p.column <= i32::MAX,
        ensures
            m == center_of(self@).mirrored(*p),
    {
        self.center().mirror_position(p)
    }

    /// Whether every cell has its mirror in the galaxy.
    pub fn is_symmetric(&self) -> (b: bool)
        requires
            self.wf(),
        ensures
            b == symmetric(self@),
    {
        let center = self.center();
        let mut i: usize = 0;
        proof {
            self.lemma_elements();
        }
        while i < self.positions.len()
            invariant
                self.wf(),
                i <= self.elements().len(),
                center == center_of(self@),
                -2 * COORDINATE_LIMIT <= center.row <= 2 * COORDINATE_LIMIT,
                -2 * COORDINATE_LIMIT <= center.column <= 2 * COORDINATE_LIMIT,
                self.elements().to_set() == self@,
                forall|k: int|
                    0 <= k < i ==> self@.contains(center.mirrored(#[trigger] self.elements()[k])),
            decreases self.elements().len() - i,
        {
            let p = self.positions.get(i);
            let m = center.mirror_position(&p);
            if !self.positions.contains(&m) {
                assert(self@.contains(p) && m == center.mirrored(p));
                return false;
            }
            i += 1;
        }
        proof {
            assert forall|p: Position| self@.contains(p) implies self@.contains(
                #[trigger] center.mirrored(p),
            ) by {
                let k = choose|k: int| 0 <= k < self.elements().len() && self.elements()[k] == p;
                assert(self@.contains(center.mirrored(self.elements()[k])));
            }
        }
        true
    }

    /// Whether the cells around the center all belong to the galaxy.
    pub fn contains_center(&self) -> (b: bool)
        requires
            self.wf(),
        ensures
            b == holds_center(self@),
    {
        let center = self.center();
        let footprint = center.get_center_placement().get_positions(&center);
        let mut i: usize = 0;
        while i < footprint.len()
            invariant
                self.wf(),
                i <= footprint.len(),
                center == center_of(self@),
                forall|p: Position| footprint@.contains(p) <==> center.surrounds(p),
                forall|k: int| 0 <= k < i ==> self@.contains(#[trigger] footprint@[k]),
            decreases footprint.len() - i,
        {
            let p = footprint[i];
            if !self.positions.contains(&p) {
                assert(footprint@.contains(p));
                return false;
            }
            i += 1;
        }
        proof {
            assert forall|p: Position| center.surrounds(p) implies #[trigger] self@.contains(p) by {
                assert(footprint@.contains(p));
                let k = choose|k: int| 0 <= k < footprint@.len() && footprint@[k] == p;
                assert(self@.contains(footprint@[k]));
            }
        }
        true
    }

    /// Whether moves between neighbouring cells lead from any cell to every cell.
    /// The empty galaxy is connected.
    pub fn is_connected(&self) -> (b: bool)
        requires
            self.wf(),
        ensures
            b == connected(self@),
    {
        if self.positions.is_empty() {
            return true;
        }
        let first = self.positions.get(0);
        let mut seeds: Vec<Position> = Vec::new();
        seeds.push(first);
        proof {
            assert(seeds@ =~= seq![first]);
            assert forall|q: Position| seeds@.to_set().contains(q) <==> q == first by {
                if q == first {
                    assert(seeds@[0] == q);
                }
            }
            assert(seeds@.to_set() =~= set![first]);
            assert(self@.contains(first));
        }
        let map = distances(self, &seeds);
        let reached: usize = map.len();
        let b = reached == self.positions.len();
        proof {
            let cells = self@;
            let none = Set::<Border>::empty();
            self.lemma_elements();
            map.lemma_size();
            assert(map@.dom().subset_of(cells)) by {
                assert forall|q: Position| map@.dom().contains(q) implies cells.contains(q) by {
                    assert(map@.contains_key(q));
                    let n = choose|n: nat| within(cells, none, set![first], n).contains(q);
                    lemma_within_bounded(cells, none, set![first], n);
                }
            }
            lemma_len_subset(map@.dom(), cells);
            if b {
                assert forall|q: Position| cells.contains(q) implies map@.dom().contains(q) by {
                    if !map@.dom().contains(q) {
                        assert(map@.dom().subset_of(cells.remove(q)));
                        lemma_len_subset(map@.dom(), cells.remove(q));
                    }
                }
                assert forall|x: Position, y: Position|
                    cells.contains(x) && cells.contains(y) implies #[trigger] reachable(
                    cells,
                    none,
                    set![x],
                    y,
                ) by {
                    assert(map@.contains_key(x) && map@.contains_key(y));
                    lemma_reachable_back(cells, none, first, x);
                    lemma_reachable_chain(cells, none, set![x], first, y);
                }
            } else {
                if connected(cells) {
                    assert forall|q: Position| cells.contains(q) implies map@.dom().contains(
                        q,
                    ) by {
                        assert(reachable(cells, none, set![first], q));
                        assert(map@.contains_key(q));
                    }
                    assert(map@.dom() =~= cells);
                }
            }
        }
        b
    }

    /// Whether the galaxy is not empty, holds its center, is connected and is
    /// symmetric.
    pub fn is_valid(&self) -> (b: bool)
        requires
            self.wf(),
        ensures
            b == valid_shape(self@),
    {
        !self.is_empty() && self.contains_center() && self.is_connected() && self.is_symmetric()
    }

    pub fn is_empty_or_valid(&self) -> (b: bool)
        requires
            self.wf(),
        ensures
            b == (self@.is_empty() || valid_shape(self@)),
    {
        self.is_empty() || self.is_valid()
    }

    /// The distance of every cell from the center: the cells around the center
    /// have distance zero, whether they belong to the galaxy or not, and every
    /// other cell that moves between neighbouring cells lead to from there has
    /// the least number of such moves. Cells that no moves lead to have no
    /// distance.
    pub fn get_hamming_distances(&self) -> (map: SortedMap<Position, usize>)
        requires
            self.wf(),
        ensures
            map.wf(),
            forall|q: Position, n: nat|
                (map@.contains_key(q) && map@[q] == n) <==> at_distance(
                    self@,
                    Set::empty(),
                    footprint_of(center_of(self@)),
                    q,
                    n,
                ),
            forall|q: Position|
                map@.contains_key(q) <==> reachable(
                    self@,
                    Set::empty(),
                    footprint_of(center_of(self@)),
                    q,
                ),
    {
        let center = self.center();
        let footprint = center.get_center_placement().get_positions(&center);
        assert(footprint@.to_set() =~= footprint_of(center));
        proof {
            assert forall|i: int| 0 <= i < footprint.len() implies (
            #[trigger] footprint[i]).in_range() by {
                assert(footprint@.contains(footprint[i]));
                assert(center.surrounds(footprint[i]));
            }
        }
        distances(self, &footprint)
    }

    /// Whether every cell has its mirror across the vertical axis through the
    /// center in the galaxy.
    pub fn is_mirror_symmetric(&self) -> (b: bool)
        requires
            self.wf(),
        ensures
            b == mirror_symmetric(self@),
    {
        let center = self.center();
        let mut i: usize = 0;
        proof {
            self.lemma_elements();
        }
        while i < self.positions.len()
            invariant
                self.wf(),
                i <= self.elements().len(),
                center == center_of(self@),
                -2 * COORDINATE_LIMIT <= center.column <= 2 * COORDINATE_LIMIT,
                self.elements().to_set() == self@,
                forall|k: int|
                    0 <= k < i ==> self@.contains(
                        Position {
                            row: (#[trigger] self.elements()[k]).row,
                            column: (center.column - self.elements()[k].column) as i32,
                        },
                    ),
            decreases self.elements().len() - i,
        {
            let p = self.positions.get(i);
            let m = Position { row: p.row, column: center.column - p.column };
            if !self.positions.contains(&m) {
                assert(self@.contains(p) && m == across(center, p));
                return false;
            }
            i += 1;
        }
        proof {
            assert forall|p: Position| self@.contains(p) implies self@.contains(
                #[trigger] across(center, p),
            ) by {
                let k = choose|k: int| 0 <= k < self.elements().len() && self.elements()[k] == p;
                assert(self.elements()[k] == p);
            }
        }
        true
    }

    /// Which of the four neighbours of `p` (up, right, down, left) belong to the
    /// galaxy.
    fn sides(&self, p: &Position) -> (sides: (bool, bool, bool, bool))
        requires
            self.wf(),
            i32::MIN < p.row < i32::MAX,
            i32::MIN < p.column < i32::MAX,
        ensures
            sides.0 == self@.contains(p.shift(-1, 0)),
            sides.1 == self@.contains(p.shift(0, 1)),
            sides.2 == self@.contains(p.shift(1, 0)),
            sides.3 == self@.contains(p.shift(0, -1)),
    {
        (
            self.positions.contains(&p.up()),
            self.positions.contains(&p.right()),
            self.positions.contains(&p.down()),
            self.positions.contains(&p.left()),
        )
    }

    /// Whether `p` belongs to the galaxy and has exactly two neighbours in it,
    /// perpendicular to each other.
    pub fn is_turn(&self, p: &Position) -> (b: bool)
        requires
            self.wf(),
            i32::MIN < p.row < i32::MAX,
            i32::MIN < p.column < i32::MAX,
        ensures
            b == turn(self@, *p),
    {
        if self.positions.contains(p) {
            let (up, right, down, left) = self.sides(p);
            (up && right && !down && !left) || (!up && right && down && !left) || (!up && !right
                && down && left) || (up && !right && !down && left)
        } else {
            false
        }
    }

    /// Whether `p` belongs to the galaxy and has at most one neighbour in it.
    pub fn is_leaf(&self, p: &Position) -> (b: bool)
        requires
            self.wf(),
            i32::MIN < p.row < i32::MAX,
            i32::MIN < p.column < i32::MAX,
        ensures
            b == leaf(self@, *p),
    {
        if self.positions.contains(p) {
            let (up, right, down, left) = self.sides(p);
            (up && !right && !down && !left) || (!up && right && !down && !left) || (!up && !right
                && down && !left) || (!up && !right && !down && left) || (!up && !right && !down
                && !left)
        } else {
            false
        }
    }

    /// Whether every cell bends or is a leaf, and at least one bends.
    pub fn is_zig_zag(&self) -> (b: bool)
        requires
            self.wf(),
        ensures
            b == zig_zag(self@),
    {
        let mut bends: bool = false;
        let mut i: usize = 0;
        proof {
            self.lemma_elements();
        }
        while i < self.positions.len()
            invariant
                self.wf(),
                i <= self.elements().len(),
                self.elements().to_set() == self@,
                forall|k: int|
                    0 <= k < i ==> turn(self@, #[trigger] self.elements()[k]) || leaf(
                        self@,
                        self.elements()[k],
                    ),
                bends <==> exists|k: int| 0 <= k < i && turn(self@, #[trigger] self.elements()[k]),
            decreases self.elements().len() - i,
        {
            let p = self.positions.get(i);
            let bend = self.is_turn(&p);
            if !bend && !self.is_leaf(&p) {
                return false;
            }
            proof {
                if bend {
                    assert(turn(self@, self.elements()[i as int]));
                } else if bends {
                    let k = choose|k: int| 0 <= k < i && turn(self@, #[trigger] self.elements()[k]);
                    assert(turn(self@, self.elements()[k]));
                }
            }
            bends = bends || bend;
            i += 1;
        }
        proof {
            assert forall|p: Position| #[trigger] self@.contains(p) implies turn(self@, p) || leaf(
                self@,
                p,
            ) by {
                let k = choose|k: int| 0 <= k < self.elements().len() && self.elements()[k] == p;
                assert(self.elements()[k] == p);
            }
            if bends {
                let k = choose|k: int| 0 <= k < i && turn(self@, #[trigger] self.elements()[k]);
                assert(self@.contains(self.elements()[k]));
            }
            if zig_zag(self@) {
                let p = choose|p: Position| #[trigger] self@.contains(p) && turn(self@, p);
                let k = choose|k: int| 0 <= k < self.elements().len() && self.elements()[k] == p;
                assert(turn(self@, self.elements()[k]));
            }
        }
        bends
    }

    /// Whether the galaxy surrounds `p` on all four sides without holding it.
    pub fn is_hole(&self, p: &Position) -> (b: bool)
        requires
            self.wf(),
            i32::MIN < p.row < i32::MAX,
            i32::MIN < p.column < i32::MAX,
        ensures
            b == hole(self@, *p),
    {
        if self.positions.contains(p) {
            false
        } else {
            let (up, right, down, left) = self.sides(p);
            up && right && down && left
        }
    }

    /// The holes of the galaxy, in row-major order.
    pub fn get_holes(&self) -> (holes: Vec<Position>)
        requires
            self.wf(),
        ensures
            forall|p: Position| holes@.contains(p) <==> hole(self@, p),
            ascending(holes@),
    {
        let bounds = self.get_bounding_rectangle();
        let mut holes: Vec<Position> = Vec::new();
        proof {
            lemma_center_range(self@, bounds);
        }
        if self.positions.is_empty() {
            return holes;
        }
        let mut row: i32 = bounds.min_row;
        while row < bounds.max_row
            invariant
                self.wf(),
                bounds.bounds(self@),
                !self@.is_empty(),
                -COORDINATE_LIMIT <= bounds.min_row <= bounds.max_row <= COORDINATE_LIMIT + 1,
                -COORDINATE_LIMIT <= bounds.min_column <= bounds.max_column <= COORDINATE_LIMIT
                    + 1,
                bounds.min_row <= row <= bounds.max_row,
                forall|p: Position|
                    #![trigger holes@.contains(p)]
                    holes@.contains(p) <==> hole(self@, p) && p.row < row,
                ascending(holes@),
            decreases bounds.max_row - row,
        {
            let mut column: i32 = bounds.min_column;
            while column < bounds.max_column
                invariant
                    self.wf(),
                    bounds.bounds(self@),
                    !self@.is_empty(),
                    -COORDINATE_LIMIT <= bounds.min_row <= bounds.max_row <= COORDINATE_LIMIT + 1,
                    -COORDINATE_LIMIT <= bounds.min_column <= bounds.max_column
                        <= COORDINATE_LIMIT + 1,
                    bounds.min_row <= row < bounds.max_row,
                    bounds.min_column <= column <= bounds.max_column,
                    forall|p: Position|
                        #![trigger holes@.contains(p)]
                        holes@.contains(p) <==> hole(self@, p) && (p.row < row || (p.row == row
                            && p.column < column)),
                    ascending(holes@),
                decreases bounds.max_column - column,
            {
                let p = Position { row, column };
                let ghost before = holes@;
                if self.is_hole(&p) {
                    proof {
                        lemma_push_contains(before, p);
                    }
                    holes.push(p);
                    proof {
                        assert forall|i: int, j: int| 0 <= i < j < holes@.len() implies holes@[i].before(
                            holes@[j],
                        ) by {
                            if j < before.len() {
                                assert(before[i].before(before[j]));
                            } else {
                                assert(before.contains(before[i]));
                            }
                        }
                    }
                }
                column += 1;
            }
            proof {
                assert forall|p: Position|
                    #![trigger holes@.contains(p)]
                    holes@.contains(p) <==> hole(self@, p) && p.row < row + 1 by {
                    if hole(self@, p) && p.row == row {
                        assert(bounds.contains(p.shift(0, -1)));
                        assert(bounds.contains(p.shift(0, 1)));
                    }
                }
            }
            row += 1;
        }
        proof {
            assert forall|p: Position| hole(self@, p) implies p.row < row by {
                assert(bounds.contains(p.shift(1, 0)));
            }
        }
        holes
    }

    /// The borders of the galaxy: those between a cell of it and a neighbour that
    /// is none.
    pub fn get_borders(&self) -> (borders: SortedSet<Border>)
        requires
            self.wf(),
        ensures
            borders.wf(),
            forall|b: Border|
                borders@.contains(b) <==> exists|p: Position, q: Position|
                    self@.contains(p) && !self@.contains(q) && #[trigger] p.adjacent_to(q) && b
                        == Border::between(p, q),
    {
        let mut borders: SortedSet<Border> = SortedSet::new();
        let mut i: usize = 0;
        proof {
            self.lemma_elements();
        }
        while i < self.positions.len()
            invariant
                self.wf(),
                i <= self.elements().len(),
                self.elements().to_set() == self@,
                borders.wf(),
                forall|b: Border|
                    #![trigger borders@.contains(b)]
                    borders@.contains(b) <==> exists|k: int, q: Position|
                        0 <= k < i && !self@.contains(q) && #[trigger] self.elements()[k].adjacent_to(
                            q,
                        ) && b == Border::between(self.elements()[k], q),
            decreases self.elements().len() - i,
        {
            let p = self.positions.get(i);
            assert(self@.contains(p));
            let around = p.adjacent();
            let ghost outer = borders@;
            let mut j: usize = 0;
            while j < around.len()
                invariant
                    self.wf(),
                    i < self.elements().len(),
                    p == self.elements()[i as int],
                    j <= around.len() == 4,
                    forall|q: Position| #[trigger] around@.contains(q) <==> p.adjacent_to(q),
                    borders.wf(),
                    forall|b: Border|
                        #![trigger borders@.contains(b)]
                        borders@.contains(b) <==> outer.contains(b) || exists|m: int|
                            0 <= m < j && !self@.contains(#[trigger] around@[m]) && b
                                == Border::between(p, around@[m]),
                decreases around.len() - j,
            {
                let q = around[j];
                assert(around@.contains(q));
                if !self.positions.contains(&q) {
                    let border = Border::new(p, q);
                    borders.insert(border);
                    assert(!self@.contains(around@[j as int]) && border == Border::between(
                        p,
                        around@[j as int],
                    ));
                }
                j += 1;
            }
            proof {
                assert forall|b: Border|
                    #![trigger borders@.contains(b)]
                    borders@.contains(b) <==> exists|k: int, q: Position|
                        0 <= k < i + 1 && !self@.contains(q) && #[trigger] self.elements()[k].adjacent_to(
                            q,
                        ) && b == Border::between(self.elements()[k], q) by {
                    if borders@.contains(b) {
                        if outer.contains(b) {
                            let (k, q) = choose|k: int, q: Position|
                                0 <= k < i && !self@.contains(q) && #[trigger] self.elements()[k].adjacent_to(
                                    q,
                                ) && b == Border::between(self.elements()[k], q);
                            assert(self.elements()[k].adjacent_to(q));
                        } else {
                            let m = choose|m: int|
                                0 <= m < j && !self@.contains(#[trigger] around@[m]) && b
                                    == Border::between(p, around@[m]);
                            assert(around@.contains(around@[m]));
                            assert(self.elements()[i as int].adjacent_to(around@[m]));
                        }
                    }
                    if exists|k: int, q: Position|
                        0 <= k < i + 1 && !self@.contains(q) && #[trigger] self.elements()[k].adjacent_to(
                            q,
                        ) && b == Border::between(self.elements()[k], q) {
                        let (k, q) = choose|k: int, q: Position|
                            0 <= k < i + 1 && !self@.contains(q) && #[trigger] self.elements()[k].adjacent_to(
                                q,
                            ) && b == Border::between(self.elements()[k], q);
                        if k < i {
                            assert(self.elements()[k].adjacent_to(q));
                            assert(outer.contains(b));
                        } else {
                            assert(around@.contains(q));
                            let m = choose|m: int| 0 <= m < around@.len() && around@[m] == q;
                            assert(!self@.contains(around@[m]) && b == Border::between(
                                p,
                                around@[m],
                            ));
                        }
                    }
                }
            }
            i += 1;
        }
        proof {
            assert forall|b: Border|
                borders@.contains(b) <==> exists|p: Position, q: Position|
                    self@.contains(p) && !self@.contains(q) && #[trigger] p.adjacent_to(q) && b
                        == Border::between(p, q) by {
                if borders@.contains(b) {
                    let (k, q) = choose|k: int, q: Position|
                        0 <= k < i && !self@.contains(q) && #[trigger] self.elements()[k].adjacent_to(
                            q,
                        ) && b == Border::between(self.elements()[k], q);
                    assert(self@.contains(self.elements()[k]));
                    assert(self.elements()[k].adjacent_to(q));
                }
                if exists|p: Position, q: Position|
                    self@.contains(p) && !self@.contains(q) && #[trigger] p.adjacent_to(q) && b
                        == Border::between(p, q) {
                    let (p, q) = choose|p: Position, q: Position|
                        self@.contains(p) && !self@.contains(q) && #[trigger] p.adjacent_to(q) && b
                            == Border::between(p, q);
                    let k = choose|k: int| 0 <= k < self.elements().len() && self.elements()[k] == p;
                    assert(self.elements()[k].adjacent_to(q));
                }
            }
        }
        borders
    }

    /// Whether `p` is a cell away from `center` that is fat: in a corner if
    /// `corner`, on an edge if not.
    fn is_fat(&self, center: &Position, corner: bool, p: &Position) -> (b: bool)
        requires
            self.wf(),
            p.in_range(),
            -2 * COORDINATE_LIMIT <= center.row <= 2 * COORDINATE_LIMIT,
            -2 * COORDINATE_LIMIT <= center.column <= 2 * COORDINATE_LIMIT,
        ensures
            b == fat(self@, *center, corner, *p),
    {
        if !self.positions.contains(p) {
            return false;
        }
        let dr: i32 = 2 * p.row - center.row;
        let dc: i32 = 2 * p.column - center.column;
        if -1 <= dr && dr <= 1 && -1 <= dc && dc <= 1 {
            return false;
        }
        let (n, e, s, w) = self.sides(p);
        let north = p.up();
        let south = p.down();
        if corner {
            if n && w && !s && !e {
                self.positions.contains(&north.left())
            } else if n && !w && !s && e {
                self.positions.contains(&north.right())
            } else if !n && w && s && !e {
                self.positions.contains(&south.left())
            } else if !n && !w && s && e {
                self.positions.contains(&south.right())
            } else {
                false
            }
        } else {
            if !n && w && s && e {
                self.positions.contains(&south.left()) && self.positions.contains(&south.right())
            } else if n && !w && s && e {
                self.positions.contains(&north.right()) && self.positions.contains(&south.right())
            } else if n && w && !s && e {
                self.positions.contains(&north.left()) && self.positions.contains(&north.right())
            } else if n && w && s && !e {
                self.positions.contains(&north.left()) && self.positions.contains(&south.left())
            } else {
                false
            }
        }
    }

    /// The first cell in row-major order that is fat in the given way.
    fn find_fat(&self, center: &Position, corner: bool) -> (found: Option<Position>)
        requires
            self.wf(),
            -2 * COORDINATE_LIMIT <= center.row <= 2 * COORDINATE_LIMIT,
            -2 * COORDINATE_LIMIT <= center.column <= 2 * COORDINATE_LIMIT,
        ensures
            match found {
                Some(p) => first_fat(self@, *center, corner, p),
                None => forall|p: Position| !fat(self@, *center, corner, p),
            },
    {
        let mut i: usize = 0;
        proof {
            self.lemma_elements();
        }
        while i < self.positions.len()
            invariant
                self.wf(),
                i <= self.elements().len(),
                self.elements().to_set() == self@,
                ascending(self.elements()),
                -2 * COORDINATE_LIMIT <= center.row <= 2 * COORDINATE_LIMIT,
                -2 * COORDINATE_LIMIT <= center.column <= 2 * COORDINATE_LIMIT,
                forall|k: int|
                    0 <= k < i ==> !fat(self@, *center, corner, #[trigger] self.elements()[k]),
            decreases self.elements().len() - i,
        {
            let p = self.positions.get(i);
            if self.is_fat(center, corner, &p) {
                proof {
                    assert forall|q: Position| #[trigger]
                        fat(self@, *center, corner, q) implies !q.precedes(p) by {
                        let k = choose|k: int|
                            0 <= k < self.elements().len() && self.elements()[k] == q;
                        if k < i {
                            assert(!fat(self@, *center, corner, self.elements()[k]));
                        } else if k > i {
                            assert(self.elements()[i as int].before(self.elements()[k]));
                        }
                    }
                }
                return Some(p);
            }
            i += 1;
        }
        proof {
            assert forall|p: Position| !fat(self@, *center, corner, p) by {
                if self@.contains(p) {
                    let k = choose|k: int| 0 <= k < self.elements().len() && self.elements()[k] == p;
                    assert(!fat(self@, *center, corner, self.elements()[k]));
                }
            }
        }
        None
    }

    /// The skeleton: what is left when fat cells are taken away one after the
    /// other until no cell is fat. A cell is fat where it sits in the corner of
    /// an L or on the flat side of a T, away from the center; corners go first,
    /// and among equals the first in row-major order. With each fat cell goes its
    /// mirror through the center, and in a galaxy that is mirror symmetric its
    /// mirrors across the two axes, unless it is next to them. The skeleton of
    /// a valid galaxy is in one piece where the galaxy is not mirror symmetric,
    /// and where it is and its center lies in a cell.
    pub fn get_skeleton(&self) -> (skeleton: Galaxy)
        requires
            self.wf(),
        ensures
            skeleton.wf(),
            skeleton@ == skeleton_of(self@, center_of(self@), mirror_symmetric(self@)),
            skeleton@.subset_of(self@),
            skeleton@.len() <= self@.len(),
            forall|q: Position|
                center_of(self@).surrounds(q) && self@.contains(q) ==> skeleton@.contains(q),
            forall|p: Position|
                !fat(skeleton@, center_of(self@), true, p) && !fat(
                    skeleton@,
                    center_of(self@),
                    false,
                    p,
                ),
            valid_shape(self@) && (!mirror_symmetric(self@) || (center_of(self@).row % 2 == 0
                && center_of(self@).column % 2 == 0)) ==> connected(skeleton@),
    {
        let mut skeleton = self.copy();
        let center = self.center();
        let mirror = self.is_mirror_symmetric();
        let mut done: bool = false;
        proof {
            lemma_skeleton(self@, center, mirror);
            if valid_shape(self@) {
                self.lemma_elements();
                lemma_skeleton_connected(self@);
            }
        }
        while !done
            invariant
                skeleton.wf(),
                -2 * COORDINATE_LIMIT <= center.row <= 2 * COORDINATE_LIMIT,
                -2 * COORDINATE_LIMIT <= center.column <= 2 * COORDINATE_LIMIT,
                skeleton_of(skeleton@, center, mirror) == skeleton_of(self@, center, mirror),
                done ==> next_fat(skeleton@, center) is None,
            decreases skeleton@.len() + (if done { 0int } else { 1int }),
        {
            let mut found = skeleton.find_fat(&center, true);
            if found.is_none() {
                found = skeleton.find_fat(&center, false);
            }
            match found {
                Some(p) => {
                    let ghost cells = skeleton@;
                    proof {
                        let corner = exists|q: Position| first_fat(cells, center, true, q);
                        if corner {
                            let q = choose|q: Position| first_fat(cells, center, true, q);
                            assert(fat(cells, center, true, q));
                            lemma_first_fat_unique(cells, center, true, p, q);
                        } else {
                            assert(first_fat(cells, center, false, p));
                            let q = choose|q: Position| first_fat(cells, center, false, q);
                            lemma_first_fat_unique(cells, center, false, p, q);
                        }
                        assert(next_fat(cells, center) == Some(p));
                        lemma_thinned(cells, center, mirror, p);
                    }
                    let m = center.mirror_position(&p);
                    skeleton.remove_position(&p);
                    skeleton.remove_position(&m);
                    let across = Position { row: p.row, column: m.column };
                    let along = Position { row: m.row, column: p.column };
                    if mirror && !p.is_adjacent_to(&across) && !p.is_adjacent_to(&along) {
                        skeleton.remove_position(&across);
                        skeleton.remove_position(&along);
                    }
                    assert(skeleton@ == thinned(cells, center, mirror, p));
                },
                None => {
                    proof {
                        assert forall|q: Position| !first_fat(skeleton@, center, true, q) by {
                            assert(!fat(skeleton@, center, true, q));
                        }
                        assert forall|q: Position| !first_fat(skeleton@, center, false, q) by {
                            assert(!fat(skeleton@, center, false, q));
                        }
                    }
                    done = true;
                },
            }
        }
        proof {
            let cells = skeleton@;
            assert forall|p: Position|
                !fat(cells, center, true, p) && !fat(cells, center, false, p) by {
                lemma_no_fat(cells, center, p);
            }
        }
        skeleton
    }
}

impl Galaxy {
    /// Reads a drawn galaxy: every character that is no space is a cell at its
    /// line and column. The result need not be valid.
    pub fn from_string(string: &str) -> (galaxy: Galaxy)
        requires
            lines_of(string@).len() <= COORDINATE_LIMIT + 1,
            forall|i: int|
                0 <= i < lines_of(string@).len() ==> (#[trigger] lines_of(string@)[i]).len()
                    <= COORDINATE_LIMIT + 1,
        ensures
            galaxy.wf(),
            forall|p: Position| galaxy@.contains(p) <==> marked(lines_of(string@), p),
    {
        let text = chars_of(string);
        let lines = split_lines(&text);
        let ghost all = lines_of(string@);
        let mut galaxy = Galaxy::new();
        let mut row: usize = 0;
        while row < lines.len()
            invariant
                row <= lines.len(),
                lines@.len() == all.len(),
                lines@.len() <= COORDINATE_LIMIT + 1,
                forall|i: int| 0 <= i < lines@.len() ==> (#[trigger] lines@[i])@ == all[i],
                forall|i: int|
                    0 <= i < lines@.len() ==> (#[trigger] lines@[i])@.len() <= COORDINATE_LIMIT
                        + 1,
                galaxy.wf(),
                forall|p: Position|
                    #![trigger galaxy@.contains(p)]
                    galaxy@.contains(p) <==> marked(all, p) && p.row < row,
            decreases lines.len() - row,
        {
            let line = &lines[row];
            let mut column: usize = 0;
            while column < line.len()
                invariant
                    row < lines.len(),
                    line@ == all[row as int],
                    column <= line.len() <= COORDINATE_LIMIT + 1,
                    lines@.len() == all.len(),
                    lines@.len() <= COORDINATE_LIMIT + 1,
                    galaxy.wf(),
                    forall|p: Position|
                        #![trigger galaxy@.contains(p)]
                        galaxy@.contains(p) <==> marked(all, p) && (p.row < row || (p.row == row
                            && p.column < column)),
                decreases line.len() - column,
            {
                if line[column] != ' ' {
                    galaxy.add_position(Position::at(row, column));
                }
                column += 1;
            }
            row += 1;
        }
        galaxy
    }

    /// Draws the outline of the galaxy with box-drawing glyphs, one line for each
    /// row of corners of its bounding rectangle.
    pub fn to_string(&self) -> (s: String)
        requires
            self.wf(),
        ensures
            s@ == drawing(outline_rows(self@, bounding_of(self@)), false),
    {
        let bounds = self.get_bounding_rectangle();
        proof {
            lemma_center_range(self@, bounds);
        }
        let mut rows: Vec<Vec<Bars>> = Vec::new();
        let mut row: i32 = bounds.min_row;
        let ghost target = outline_rows(self@, bounds);
        while row <= bounds.max_row
            invariant
                self.wf(),
                -COORDINATE_LIMIT <= bounds.min_row <= row <= bounds.max_row + 1,
                bounds.max_row <= COORDINATE_LIMIT + 1,
                -COORDINATE_LIMIT <= bounds.min_column <= bounds.max_column <= COORDINATE_LIMIT
                    + 1,
                target == outline_rows(self@, bounds),
                rows@.len() == row - bounds.min_row,
                forall|i: int| 0 <= i < rows@.len() ==> (#[trigger] rows@[i])@ == target[i],
            decreases bounds.max_row + 1 - row,
        {
            let mut line: Vec<Bars> = Vec::new();
            let mut column: i32 = bounds.min_column;
            while column <= bounds.max_column
                invariant
                    self.wf(),
                    -COORDINATE_LIMIT <= bounds.min_row <= row <= bounds.max_row
                        <= COORDINATE_LIMIT + 1,
                    -COORDINATE_LIMIT <= bounds.min_column <= column <= bounds.max_column + 1,
                    bounds.max_column <= COORDINATE_LIMIT + 1,
                    target == outline_rows(self@, bounds),
                    line@.len() == column - bounds.min_column,
                    forall|i: int|
                        0 <= i < line@.len() ==> #[trigger] line@[i] == target[row
                            - bounds.min_row][i],
                decreases bounds.max_column + 1 - column,
            {
                let corner = Position { row, column };
                let bottom_right = self.contains_position(&corner);
                let bottom_left = self.contains_position(&corner.left());
                let top_left = self.contains_position(&corner.left().up());
                let top_right = self.contains_position(&corner.up());
                line.push(
                    Bars {
                        top: top_left != top_right,
                        right: top_right != bottom_right,
                        bottom: bottom_left != bottom_right,
                        left: top_left != bottom_left,
                    },
                );
                column += 1;
            }
            assert(line@ =~= target[row - bounds.min_row]);
            rows.push(line);
            row += 1;
        }
        let text = draw(&rows, false);
        assert(rows@.map_values(|row: Vec<Bars>| row@) =~= target);
        string_of(&text)
    }
}

/// The center of a single cell.
pub proof fn lemma_single_center(p: Position)
    requires
        p.in_range(),
    ensures
        center_of(set![p]) == (Position { row: (2 * p.row) as i32, column: (2 * p.column) as i32 }),
        !set![p].is_empty(),
{
    let cells = set![p];
    let r = Rectangle {
        min_row: p.row,
        max_row: (p.row + 1) as i32,
        min_column: p.column,
        max_column: (p.column + 1) as i32,
    };
    assert(cells.contains(p));
    assert(r.bounds(cells));
    lemma_bounding(cells, r);
}

/// A single cell is connected.
pub proof fn lemma_single_connected(p: Position)
    ensures
        connected(set![p]),
{
    let cells = set![p];
    assert forall|a: Position, b: Position|
        cells.contains(a) && cells.contains(b) implies #[trigger] reachable(
        cells,
        Set::empty(),
        set![a],
        b,
    ) by {
        assert(within(cells, Set::<Border>::empty(), set![a], 0).contains(b));
    }
}

/// A single cell is a valid galaxy.
pub proof fn lemma_single_valid(p: Position)
    requires
        p.in_range(),
    ensures
        valid_shape(set![p]),
{
    lemma_single_center(p);
    lemma_single_connected(p);
    let cells = set![p];
    let c = center_of(cells);
    assert(symmetric(cells)) by {
        assert forall|q: Position| cells.contains(q) implies cells.contains(
            #[trigger] c.mirrored(q),
        ) by {
            assert(q == p);
            assert(c.mirrored(q) == p);
        }
    }
    assert(holds_center(cells)) by {
        assert forall|q: Position| c.surrounds(q) implies #[trigger] cells.contains(q) by {
            assert(q == p);
        }
    }
}

/// A connected set of cells stays connected when a neighbour of one of its cells
/// joins it.
pub proof fn lemma_connected_grows(cells: Set<Position>, member: Position, joining: Position)
    requires
        connected(cells),
        cells.contains(member),
        member.adjacent_to(joining),
    ensures
        connected(cells.insert(joining)),
{
    let more = cells.insert(joining);
    let none = Set::<Border>::empty();
    assert(Border::between(member, joining) == Border::between(joining, member));
    assert(open_move(more, none, member, joining));
    assert(open_move(more, none, joining, member));
    lemma_reachable_step(more, none, member, joining);
    lemma_reachable_step(more, none, joining, member);
    assert forall|a: Position, b: Position|
        more.contains(a) && more.contains(b) implies #[trigger] reachable(more, none, set![a], b) by {
        // from `a` to `member`
        if a == joining {
            assert(reachable(more, none, set![a], member));
        } else {
            assert(reachable(cells, none, set![a], member));
            lemma_reachable_more_cells(cells, more, none, set![a], member);
        }
        // from `member` to `b`
        if b == joining {
            assert(reachable(more, none, set![member], b));
        } else {
            assert(reachable(cells, none, set![member], b));
            lemma_reachable_more_cells(cells, more, none, set![member], b);
        }
        lemma_reachable_chain(more, none, set![a], member, b);
    }
}

/// The first and the last row and column of a set of cells that is not empty
/// are those of its bounding rectangle.
pub proof fn lemma_extremes(cells: Set<Position>, r: Rectangle)
    requires
        r.bounds(cells),
        !cells.is_empty(),
    ensures
        forall|p: Position| cells.contains(p) ==> r.contains(p),
        exists|p: Position| #[trigger] cells.contains(p) && p.row == r.min_row,
        exists|p: Position| #[trigger] cells.contains(p) && p.row == r.max_row - 1,
        exists|p: Position| #[trigger] cells.contains(p) && p.column == r.min_column,
        exists|p: Position| #[trigger] cells.contains(p) && p.column == r.max_column - 1,
{
}

/// A symmetric set of cells keeps its center when a position and its mirror
/// through that center join it.
pub proof fn lemma_mirror_pair_center(cells: Set<Position>, joining: Position)
    requires
        cells.finite(),
        !cells.is_empty(),
        all_in_range(cells),
        joining.in_range(),
        center_of(cells).mirrored(joining).in_range(),
    ensures
        center_of(cells.insert(joining).insert(center_of(cells).mirrored(joining))) == center_of(
            cells,
        ),
{
    let c = center_of(cells);
    let m = c.mirrored(joining);
    let more = cells.insert(joining).insert(m);
    let r = bounding_of(cells);
    let g = bounding_of(more);
    lemma_bounds_exist(cells);
    lemma_bounds_exist(more);
    lemma_center_range(cells, r);
    assert(more.contains(joining) && more.contains(m));
    assert(!more.is_empty());
    lemma_center_range(more, g);
    lemma_extremes(cells, r);
    lemma_extremes(more, g);
    let a = choose|p: Position| #[trigger] cells.contains(p) && p.row == r.min_row;
    let b = choose|p: Position| #[trigger] cells.contains(p) && p.row == r.max_row - 1;
    let top = choose|p: Position| #[trigger] more.contains(p) && p.row == g.min_row;
    let low = choose|p: Position| #[trigger] more.contains(p) && p.row == g.max_row - 1;
    assert(g.min_row + g.max_row == r.min_row + r.max_row) by {
        assert(more.contains(a) && more.contains(b));
        assert(g.contains(a) && g.contains(b) && g.contains(joining) && g.contains(m));
        assert(cells.contains(top) ==> r.contains(top));
        assert(cells.contains(low) ==> r.contains(low));
        assert(m.row == c.row - joining.row);
        assert(c.row == r.min_row + r.max_row - 1);
    }
    let left = choose|p: Position| #[trigger] cells.contains(p) && p.column == r.min_column;
    let right = choose|p: Position| #[trigger] cells.contains(p) && p.column == r.max_column - 1;
    let first = choose|p: Position| #[trigger] more.contains(p) && p.column == g.min_column;
    let last = choose|p: Position| #[trigger] more.contains(p) && p.column == g.max_column - 1;
    assert(g.min_column + g.max_column == r.min_column + r.max_column) by {
        assert(more.contains(left) && more.contains(right));
        assert(g.contains(left) && g.contains(right) && g.contains(joining) && g.contains(m));
        assert(cells.contains(first) ==> r.contains(first));
        assert(cells.contains(last) ==> r.contains(last));
        assert(m.column == c.column - joining.column);
        assert(c.column == r.min_column + r.max_column - 1);
    }
}

/// A symmetric set of cells stays symmetric when a position and its mirror
/// through the center join it.
pub proof fn lemma_mirror_pair_joins(cells: Set<Position>, joining: Position)
    requires
        cells.finite(),
        !cells.is_empty(),
        all_in_range(cells),
        symmetric(cells),
        joining.in_range(),
        center_of(cells).mirrored(joining).in_range(),
    ensures
        center_of(cells.insert(joining).insert(center_of(cells).mirrored(joining))) == center_of(
            cells,
        ),
        symmetric(cells.insert(joining).insert(center_of(cells).mirrored(joining))),
{
    let c = center_of(cells);
    let m = c.mirrored(joining);
    let more = cells.insert(joining).insert(m);
    lemma_mirror_pair_center(cells, joining);
    lemma_bounds_exist(cells);
    lemma_center_range(cells, bounding_of(cells));
    assert forall|p: Position| more.contains(p) implies more.contains(
        #[trigger] c.mirrored(p),
    ) by {
        if cells.contains(p) {
            assert(cells.contains(c.mirrored(p)));
        } else if p == joining {
        } else {
            assert(c.mirrored(m) == joining);
        }
    }
}

/// Every finite set of cells within the coordinate limit has its bounding
/// rectangle.
pub proof fn lemma_bounds_exist(cells: Set<Position>)
    requires
        all_in_range(cells),
    ensures
        cells.finite() ==> bounding_of(cells).bounds(cells),
    decreases cells.len(),
{
    if cells.finite() {
        if cells.is_empty() {
            let r = Rectangle { min_row: 0, max_row: 0, min_column: 0, max_column: 0 };
            assert(r.bounds(cells));
        } else {
            let p = cells.choose();
            let rest = cells.remove(p);
            lemma_bounds_exist(rest);
            let r = bounding_of(rest);
            if rest.is_empty() {
                let one = Rectangle {
                    min_row: p.row,
                    max_row: (p.row + 1) as i32,
                    min_column: p.column,
                    max_column: (p.column + 1) as i32,
                };
                assert(cells.contains(p));
                assert forall|q: Position| cells.contains(q) implies one.contains(q) by {
                    if q != p {
                        assert(rest.contains(q));
                    }
                }
                assert(one.bounds(cells));
            } else {
                let a = choose|q: Position| #[trigger] rest.contains(q) && q.row == r.min_row;
                let b = choose|q: Position| #[trigger] rest.contains(q) && q.row == r.max_row - 1;
                let c = choose|q: Position| #[trigger] rest.contains(q) && q.column == r.min_column;
                let d = choose|q: Position| #[trigger]
                    rest.contains(q) && q.column == r.max_column - 1;
                let grown = Rectangle {
                    min_row: if p.row < r.min_row {
                        p.row
                    } else {
                        r.min_row
                    },
                    max_row: if p.row >= r.max_row {
                        (p.row + 1) as i32
                    } else {
                        r.max_row
                    },
                    min_column: if p.column < r.min_column {
                        p.column
                    } else {
                        r.min_column
                    },
                    max_column: if p.column >= r.max_column {
                        (p.column + 1) as i32
                    } else {
                        r.max_column
                    },
                };
                assert(cells.contains(p) && cells.contains(a) && cells.contains(b)
                    && cells.contains(c) && cells.contains(d));
                assert forall|q: Position| cells.contains(q) implies grown.contains(q) by {
                    if q != p {
                        assert(rest.contains(q));
                        assert(r.contains(q));
                    }
                }
                let top = if p.row < r.min_row { p } else { a };
                assert(cells.contains(top) && top.row == grown.min_row);
                let low = if p.row >= r.max_row { p } else { b };
                assert(cells.contains(low) && low.row == grown.max_row - 1);
                let left = if p.column < r.min_column { p } else { c };
                assert(cells.contains(left) && left.column == grown.min_column);
                let right = if p.column >= r.max_column { p } else { d };
                assert(cells.contains(right) && right.column == grown.max_column - 1);
                assert(grown.bounds(cells));
            }
        }
    }
}

/// Where thinning finds nothing to take, no cell is fat.
pub proof fn lemma_no_fat(cells: Set<Position>, center: Position, p: Position)
    requires
        cells.finite(),
        next_fat(cells, center) is None,
    ensures
        !fat(cells, center, true, p),
        !fat(cells, center, false, p),
{
    lemma_least_fat(cells, center, true);
    lemma_least_fat(cells, center, false);
}

/// Among finitely many cells, where one is fat, one is the first fat one.
pub proof fn lemma_least_fat(cells: Set<Position>, center: Position, corner: bool)
    requires
        cells.finite(),
    ensures
        (exists|p: Position| fat(cells, center, corner, p)) ==> exists|p: Position|
            first_fat(cells, center, corner, p),
    decreases cells.len(),
{
    if exists|p: Position| fat(cells, center, corner, p) {
        let p = choose|p: Position| fat(cells, center, corner, p);
        let fats = cells.filter(|q: Position| fat(cells, center, corner, q));
        lemma_least_of(fats, p);
        let least = choose|least: Position|
            fats.contains(least) && forall|q: Position| #[trigger]
                fats.contains(q) ==> !q.precedes(least);
        assert forall|q: Position| #[trigger] fat(cells, center, corner, q) implies !q.precedes(
            least,
        ) by {
            assert(fats.contains(q));
        }
        assert(first_fat(cells, center, corner, least));
    }
}

/// A finite set of positions that holds one holds a first one.
pub proof fn lemma_least_of(cells: Set<Position>, p: Position)
    requires
        cells.finite(),
        cells.contains(p),
    ensures
        exists|least: Position|
            cells.contains(least) && forall|q: Position| #[trigger]
                cells.contains(q) ==> !q.precedes(least),
    decreases cells.len(),
{
    let rest = cells.remove(p);
    if rest.is_empty() {
        assert forall|q: Position| #[trigger] cells.contains(q) implies !q.precedes(p) by {
            if q != p {
                assert(rest.contains(q));
            }
        }
    } else {
        let other = rest.choose();
        lemma_least_of(rest, other);
        let least = choose|least: Position|
            rest.contains(least) && forall|q: Position| #[trigger]
                rest.contains(q) ==> !q.precedes(least);
        if p.precedes(least) {
            assert forall|q: Position| #[trigger] cells.contains(q) implies !q.precedes(p) by {
                if q != p {
                    assert(rest.contains(q));
                }
            }
        } else {
            assert forall|q: Position| #[trigger] cells.contains(q) implies !q.precedes(least) by {
                if q != p {
                    assert(rest.contains(q));
                }
            }
            assert(cells.contains(least));
        }
    }
}

} // verus!

//! The solver: from the centers alone it works out where the walls stand.
use itertools::Itertools;
use vstd::prelude::*;
use vstd::set_lib::lemma_len_subset;

use crate::border::Border;
use crate::objective::{
    centers_apart, centers_inside, GalaxyCenter, InvalidInput, Objective,
};
use crate::ordered::{ascending, sorted_by_number, Ordered, SortedMap, SortedSet};
use crate::position::{footprint_of, Position, COORDINATE_LIMIT};
use crate::reach::{
    distances, lemma_prefix_contains, lemma_push_contains, lemma_within_transfer, open_move,
    reachable, within, Terrain,
};

verus! {

/// The position in row `r` and column `c`.
pub open spec fn cell(r: int, c: int) -> Position {
    Position { row: r as i32, column: c as i32 }
}

/// The sum of `f` over the columns `[c0, c1)` of row `r`.
pub open spec fn row_sum(f: spec_fn(int, int) -> nat, r: int, c0: int, c1: int) -> nat
    decreases c1 - c0,
{
    if c1 <= c0 {
        0
    } else {
        row_sum(f, r, c0, c1 - 1) + f(r, c1 - 1)
    }
}

/// The sum of `f` over the rows `[r0, r1)` and columns `[c0, c1)`.
pub open spec fn box_sum(f: spec_fn(int, int) -> nat, r0: int, r1: int, c0: int, c1: int) -> nat
    decreases r1 - r0,
{
    if r1 <= r0 {
        0
    } else {
        box_sum(f, r0, r1 - 1, c0, c1) + row_sum(f, r1 - 1, c0, c1)
    }
}

/// A sum over a row is no greater where no term is, and less where one term is
/// less besides.
pub proof fn lemma_row_sum(
    f: spec_fn(int, int) -> nat,
    g: spec_fn(int, int) -> nat,
    r: int,
    c0: int,
    c1: int,
)
    requires
        forall|c: int| c0 <= c < c1 ==> #[trigger] g(r, c) <= f(r, c),
    ensures
        row_sum(g, r, c0, c1) <= row_sum(f, r, c0, c1),
        (exists|c: int| c0 <= c < c1 && #[trigger] g(r, c) < f(r, c)) ==> row_sum(g, r, c0, c1)
            < row_sum(f, r, c0, c1),
    decreases c1 - c0,
{
    if c1 > c0 {
        lemma_row_sum(f, g, r, c0, c1 - 1);
        assert(g(r, c1 - 1) <= f(r, c1 - 1));
        if exists|c: int| c0 <= c < c1 && #[trigger] g(r, c) < f(r, c) {
            let c = choose|c: int| c0 <= c < c1 && #[trigger] g(r, c) < f(r, c);
            if c < c1 - 1 {
                assert(g(r, c) < f(r, c));
            }
        }
    }
}

/// A sum over a box is no greater where no term is, and less where one term is
/// less besides.
pub proof fn lemma_box_sum(
    f: spec_fn(int, int) -> nat,
    g: spec_fn(int, int) -> nat,
    r0: int,
    r1: int,
    c0: int,
    c1: int,
)
    requires
        forall|r: int, c: int| r0 <= r < r1 && c0 <= c < c1 ==> #[trigger] g(r, c) <= f(r, c),
    ensures
        box_sum(g, r0, r1, c0, c1) <= box_sum(f, r0, r1, c0, c1),
        (exists|r: int, c: int| r0 <= r < r1 && c0 <= c < c1 && #[trigger] g(r, c) < f(r, c))
            ==> box_sum(g, r0, r1, c0, c1) < box_sum(f, r0, r1, c0, c1),
    decreases r1 - r0,
{
    if r1 > r0 {
        lemma_box_sum(f, g, r0, r1 - 1, c0, c1);
        lemma_row_sum(f, g, r1 - 1, c0, c1);
        if exists|r: int, c: int| r0 <= r < r1 && c0 <= c < c1 && #[trigger] g(r, c) < f(r, c) {
            let (r, c) = choose|r: int, c: int|
                r0 <= r < r1 && c0 <= c < c1 && #[trigger] g(r, c) < f(r, c);
            if r < r1 - 1 {
                assert(g(r, c) < f(r, c));
            } else {
                assert(g(r1 - 1, c) < f(r1 - 1, c));
            }
        }
    }
}

/// What the solver finds where its knowledge contradicts itself: no walls can be
/// set for the objective, or none under the assumption that was made.
#[derive(Clone, Copy, Debug, PartialEq, Eq, Structural)]
pub struct Contradiction;

/// The walls that the solver has found to stand.
#[derive(Clone, Debug, PartialEq, Eq)]
pub struct Solution {
    pub borders: SortedSet<Border>,
}

/// The solver. Of every border it knows that a wall stands there, that none
/// does, or nothing; and of every cell, which galaxies it may belong to, each
/// named by the index of its center. Both only ever narrow.
#[derive(Clone, Debug)]
pub struct Solver {
    width: usize,
    height: usize,
    galaxy_centers: Vec<GalaxyCenter>,
    borders: SortedMap<Border, bool>,
    possible_galaxy_ids: Vec<Vec<SortedSet<usize>>>,
}

impl Solver {
    /// The number of rows of the grid.
    pub closed spec fn rows(&self) -> int {
        self.height as int
    }

    /// The number of columns of the grid.
    pub closed spec fn columns(&self) -> int {
        self.width as int
    }

    /// The centers; the index of a center names its galaxy.
    pub closed spec fn centers(&self) -> Seq<GalaxyCenter> {
        self.galaxy_centers@
    }

    /// What is known of the borders: `true` where a wall stands, `false` where
    /// none does.
    pub closed spec fn known(&self) -> Map<Border, bool> {
        self.borders@
    }

    /// The galaxies that the cell `p` may belong to.
    pub closed spec fn possible(&self, p: Position) -> Set<usize> {
        self.possible_galaxy_ids@[p.row as int]@[p.column as int]@
    }

    /// The data of the solver is in shape: there is a set of galaxies for every
    /// cell, and all is held in order.
    pub closed spec fn shaped(&self) -> bool {
        &&& self.borders.wf()
        &&& self.possible_galaxy_ids@.len() == self.height
        &&& forall|r: int|
            0 <= r < self.height ==> (#[trigger] self.possible_galaxy_ids@[r])@.len() == self.width
        &&& forall|r: int, c: int|
            0 <= r < self.height && 0 <= c < self.width ==> (
            #[trigger] self.possible_galaxy_ids@[r]@[c]).wf()
    }

    /// `p` is a cell of the grid.
    pub open spec fn inside(&self, p: Position) -> bool {
        0 <= p.row < self.rows() && 0 <= p.column < self.columns()
    }

    /// `b` is one of the borders around the grid.
    pub open spec fn on_frame(&self, b: Border) -> bool {
        b.frames(self.rows(), self.columns())
    }

    /// The cell `p` is known to belong to the galaxy `id`.
    pub open spec fn certain(&self, p: Position, id: usize) -> bool {
        self.inside(p) && self.possible(p) == set![id]
    }

    /// The solver is well formed: the grid has cells and is no larger than
    /// positions allow; the cells around every center lie within it; a cell may
    /// only belong to galaxies that there are; and the walls of the frame are
    /// known to stand.
    pub open spec fn wf(&self) -> bool {
        &&& self.shaped()
        &&& self.centers_listed()
        &&& 1 <= self.rows() <= COORDINATE_LIMIT
        &&& 1 <= self.columns() <= COORDINATE_LIMIT
        &&& forall|k: int, p: Position|
            0 <= k < self.centers().len() && #[trigger] self.centers()[k].position.surrounds(p)
                ==> self.inside(p)
        &&& forall|p: Position, id: usize|
            self.inside(p) && #[trigger] self.possible(p).contains(id) ==> id
                < self.centers().len()
        &&& forall|b: Border|
            b.well_formed() && #[trigger] self.on_frame(b) ==> self.known().contains_key(b)
                && self.known()[b]
    }

    /// A cell around a center may belong to the galaxy of that center alone.
    pub open spec fn anchored(&self) -> bool {
        forall|k: int, p: Position, id: usize|
            #![trigger self.centers()[k].position.surrounds(p), self.possible(p).contains(id)]
            0 <= k < self.centers().len() && self.centers()[k].position.surrounds(p)
                && self.possible(p).contains(id) ==> id == k
    }

    /// The solver `self` knows whatever `before` knew, and maybe more: the grid
    /// and the centers are the same, every border that was known is known as it
    /// was, and no cell may belong to a galaxy that it might not belong to
    /// before.
    pub open spec fn narrows(&self, before: &Solver) -> bool {
        &&& self.rows() == before.rows()
        &&& self.columns() == before.columns()
        &&& self.centers() == before.centers()
        &&& self.shaped()
        &&& forall|b: Border|
            #[trigger] before.known().contains_key(b) ==> self.known().contains_key(b)
                && self.known()[b] == before.known()[b]
        &&& forall|p: Position|
            self.inside(p) ==> (#[trigger] self.possible(p)).subset_of(before.possible(p))
    }

    /// The solver `self` knows just what `before` knew.
    pub open spec fn same_as(&self, before: &Solver) -> bool {
        &&& self.narrows(before)
        &&& self.known() == before.known()
        &&& forall|p: Position| self.inside(p) ==> #[trigger] self.possible(p) == before.possible(p)
    }

    /// How many of the two borders on the right and the lower side of each
    /// position are unknown.
    pub open spec fn unknown_at(&self) -> spec_fn(int, int) -> nat {
        |r: int, c: int|
            (if self.known().contains_key(Border::of(cell(r, c), cell(r, c + 1))) {
                0nat
            } else {
                1nat
            }) + (if self.known().contains_key(Border::of(cell(r, c), cell(r + 1, c))) {
                0nat
            } else {
                1nat
            })
    }

    /// How many galaxies each cell may belong to.
    pub open spec fn open_at(&self) -> spec_fn(int, int) -> nat {
        |r: int, c: int| self.possible(cell(r, c)).len()
    }

    /// How much there is left to find out: the number of unknown borders in and
    /// around the grid, as far as mirrors of borders of the grid reach, and the
    /// number of galaxies that the cells may belong to.
    pub open spec fn measure(&self) -> nat {
        box_sum(
            self.unknown_at(),
            -self.rows(),
            2 * self.rows(),
            -self.columns(),
            2 * self.columns(),
        ) + box_sum(self.open_at(), 0, self.rows(), 0, self.columns())
    }

    /// The border `b` lies in or around the grid, as far as mirrors of borders of
    /// the grid reach.
    pub open spec fn in_reach(&self, b: Border) -> bool {
        &&& b.well_formed()
        &&& -self.rows() <= b.first().row < 2 * self.rows()
        &&& -self.columns() <= b.first().column < 2 * self.columns()
    }

    /// The sets of galaxies of the cells are finite.
    pub proof fn lemma_possible(&self, p: Position)
        requires
            self.shaped(),
            self.inside(p),
        ensures
            self.possible(p).finite(),
    {
        self.possible_galaxy_ids@[p.row as int]@[p.column as int].lemma_size();
    }

    /// A solver that knows more has less left to find out: no more, and less
    /// where a border in reach has become known or a cell may belong to fewer
    /// galaxies.
    pub proof fn lemma_measure(&self, before: &Solver)
        requires
            self.narrows(before),
            before.shaped(),
            self.rows() <= COORDINATE_LIMIT,
            self.columns() <= COORDINATE_LIMIT,
        ensures
            self.measure() <= before.measure(),
            (exists|b: Border|
                self.in_reach(b) && #[trigger] self.known().contains_key(b)
                    && !before.known().contains_key(b)) ==> self.measure() < before.measure(),
            (exists|p: Position|
                self.inside(p) && #[trigger] self.possible(p) != before.possible(p))
                ==> self.measure() < before.measure(),
    {
        let rows = self.rows();
        let columns = self.columns();
        let f = before.unknown_at();
        let g = self.unknown_at();
        assert forall|r: int, c: int|
            -rows <= r < 2 * rows && -columns <= c < 2 * columns implies #[trigger] g(r, c) <= f(
            r,
            c,
        ) by {
            let right = Border::of(cell(r, c), cell(r, c + 1));
            let down = Border::of(cell(r, c), cell(r + 1, c));
            assert(before.known().contains_key(right) ==> self.known().contains_key(right));
            assert(before.known().contains_key(down) ==> self.known().contains_key(down));
        }
        lemma_box_sum(f, g, -rows, 2 * rows, -columns, 2 * columns);
        let h = before.open_at();
        let k = self.open_at();
        assert forall|r: int, c: int| 0 <= r < rows && 0 <= c < columns implies #[trigger] k(r, c)
            <= h(r, c) by {
            before.lemma_possible(cell(r, c));
            assert(self.possible(cell(r, c)).subset_of(before.possible(cell(r, c))));
            lemma_len_subset(self.possible(cell(r, c)), before.possible(cell(r, c)));
        }
        lemma_box_sum(h, k, 0, rows, 0, columns);
        if exists|b: Border|
            self.in_reach(b) && #[trigger] self.known().contains_key(b)
                && !before.known().contains_key(b) {
            let b = choose|b: Border|
                self.in_reach(b) && #[trigger] self.known().contains_key(b)
                    && !before.known().contains_key(b);
            let r = b.first().row as int;
            let c = b.first().column as int;
            b.lemma_well_formed();
            if b.first().row == b.second().row {
                Border::lemma_of(cell(r, c), cell(r, c + 1));
                Border::lemma_same(b, Border::of(cell(r, c), cell(r, c + 1)));
            } else {
                Border::lemma_of(cell(r, c), cell(r + 1, c));
                Border::lemma_same(b, Border::of(cell(r, c), cell(r + 1, c)));
            }
            assert(g(r, c) < f(r, c));
        }
        if exists|p: Position| self.inside(p) && #[trigger] self.possible(p) != before.possible(p) {
            let p = choose|p: Position|
                self.inside(p) && #[trigger] self.possible(p) != before.possible(p);
            let r = p.row as int;
            let c = p.column as int;
            assert(cell(r, c) == p);
            before.lemma_possible(p);
            let more = before.possible(p);
            let less = self.possible(p);
            assert(less.subset_of(more));
            if forall|x: usize| more.contains(x) ==> less.contains(x) {
                assert(less =~= more);
            }
            let x = choose|x: usize| more.contains(x) && !less.contains(x);
            assert(less.subset_of(more.remove(x)));
            lemma_len_subset(less, more.remove(x));
            assert(k(r, c) < h(r, c));
        }
    }

    pub fn get_width(&self) -> (width: usize)
        ensures
            width == self.columns(),
    {
        self.width
    }

    pub fn get_height(&self) -> (height: usize)
        ensures
            height == self.rows(),
    {
        self.height
    }

    /// Whether `p` is a cell of the grid.
    pub fn contains(&self, p: &Position) -> (b: bool)
        ensures
            b == self.inside(*p),
    {
        p.row >= 0 && (p.row as usize) < self.height && p.column >= 0 && (p.column as usize)
            < self.width
    }

    /// What is known of the border `border`.
    pub fn get_border(&self, border: &Border) -> (state: Option<bool>)
        requires
            self.shaped(),
        ensures
            match state {
                Some(wall) => self.known().contains_key(*border) && self.known()[*border] == wall,
                None => !self.known().contains_key(*border),
            },
    {
        match self.borders.get(border) {
            Some(wall) => Some(*wall),
            None => None,
        }
    }

    /// The galaxies that the cell `p` may belong to, in ascending order.
    pub fn get_possible(&self, p: &Position) -> (ids: Vec<usize>)
        requires
            self.shaped(),
            self.inside(*p),
        ensures
            ascending(ids@),
            ids@.to_set() == self.possible(*p),
            ids@.len() == self.possible(*p).len(),
    {
        let set = &self.possible_galaxy_ids[p.row as usize][p.column as usize];
        proof {
            set.lemma_size();
        }
        set.to_vec()
    }

    /// Whether the cell `p` may belong to the galaxy `id`.
    pub fn is_possible(&self, p: &Position, id: usize) -> (b: bool)
        requires
            self.shaped(),
            self.inside(*p),
        ensures
            b == self.possible(*p).contains(id),
    {
        self.possible_galaxy_ids[p.row as usize][p.column as usize].contains(&id)
    }

    /// The borders that are known to be walls.
    pub fn get_borders(&self) -> (walls: SortedSet<Border>)
        requires
            self.shaped(),
        ensures
            walls.wf(),
            forall|b: Border|
                walls@.contains(b) <==> self.known().contains_key(b) && self.known()[b],
    {
        let mut walls: SortedSet<Border> = SortedSet::new();
        let mut i: usize = 0;
        proof {
            self.borders.lemma_size();
        }
        while i < self.borders.len()
            invariant
                self.shaped(),
                i <= self.borders.key_seq().len(),
                self.borders@.dom() == self.borders.key_seq().to_set(),
                walls.wf(),
                forall|b: Border|
                    #![trigger walls@.contains(b)]
                    walls@.contains(b) <==> self.borders.key_seq().subrange(0, i as int).contains(
                        b,
                    ) && self.known()[b],
            decreases self.borders.key_seq().len() - i,
        {
            let border = self.borders.key_at(i);
            let wall = *self.borders.value_at(i);
            proof {
                lemma_prefix_contains(self.borders.key_seq(), i as int);
            }
            if wall {
                walls.insert(border);
            }
            i += 1;
        }
        proof {
            assert(self.borders.key_seq().subrange(0, self.borders.key_seq().len() as int)
                =~= self.borders.key_seq());
            assert forall|b: Border|
                walls@.contains(b) <==> self.known().contains_key(b) && self.known()[b] by {
                assert(self.borders@.dom().contains(b) <==> self.borders.key_seq().contains(b));
            }
        }
        walls
    }
}

/// Calls `Itertools::exactly_one` of the `itertools` crate on the identifiers.
/// Where there is just one, that one is returned; where there are none or
/// several, nothing is.
#[verifier::external_body]
fn exactly_one(ids: &Vec<usize>) -> (one: Option<usize>)
    ensures
        one == (if ids@.len() == 1 {
            Some(ids@[0])
        } else {
            None::<usize>
        }),
{
    ids.iter().exactly_one().ok().copied()
}

/// The border between the mirrors of the two positions of `b` through the
/// half-step center `center`.
pub open spec fn mirror_border(center: Position, b: Border) -> Border {
    Border::of(center.mirrored(b.second()), center.mirrored(b.first()))
}

impl Solver {
    /// A solver that knows more than a well-formed one is well formed.
    pub proof fn lemma_narrows_wf(&self, before: &Solver)
        requires
            self.narrows(before),
            before.wf(),
        ensures
            self.wf(),
    {
        assert forall|p: Position, id: usize|
            self.inside(p) && #[trigger] self.possible(p).contains(id) implies id
            < self.centers().len() by {
            assert(self.possible(p).subset_of(before.possible(p)));
            assert(before.possible(p).contains(id));
        }
        assert forall|b: Border|
            b.well_formed() && #[trigger] self.on_frame(b) implies self.known().contains_key(b)
            && self.known()[b] by {
            assert(before.on_frame(b));
            assert(before.known().contains_key(b));
        }
    }

    /// A solver that knows more than a well-formed one in which the cells around
    /// the centers are given to their galaxies gives them to their galaxies.
    pub proof fn lemma_narrows_anchored(&self, before: &Solver)
        requires
            self.narrows(before),
            before.wf(),
            before.anchored(),
        ensures
            self.anchored(),
    {
        assert forall|k: int, p: Position, id: usize|
            #![trigger self.centers()[k].position.surrounds(p), self.possible(p).contains(id)]
            0 <= k < self.centers().len() && self.centers()[k].position.surrounds(p)
                && self.possible(p).contains(id) implies id == k by {
            assert(before.inside(p));
            assert(self.possible(p).subset_of(before.possible(p)));
            assert(before.possible(p).contains(id));
        }
    }

    /// Narrowing is transitive.
    pub proof fn lemma_narrows_chain(&self, middle: &Solver, before: &Solver)
        requires
            self.narrows(middle),
            middle.narrows(before),
        ensures
            self.narrows(before),
    {
        assert forall|b: Border| #[trigger] before.known().contains_key(b) implies self.known().contains_key(
            b,
        ) && self.known()[b] == before.known()[b] by {
            assert(middle.known().contains_key(b));
        }
        assert forall|p: Position| self.inside(p) implies (#[trigger] self.possible(p)).subset_of(
            before.possible(p),
        ) by {
            assert(self.possible(p).subset_of(middle.possible(p)));
            assert(middle.possible(p).subset_of(before.possible(p)));
        }
    }

    /// Takes note of what the border `border` is, of which nothing was known.
    fn learn(&mut self, border: Border, wall: bool)
        requires
            old(self).wf(),
            !old(self).known().contains_key(border),
            old(self).in_reach(border),
        ensures
            final(self).wf(),
            final(self).narrows(old(self)),
            final(self).known() == old(self).known().insert(border, wall),
            forall|p: Position|
                final(self).inside(p) ==> #[trigger] final(self).possible(p) == old(self).possible(
                    p,
                ),
            final(self).measure() < old(self).measure(),
    {
        self.borders.insert(border, wall);
        proof {
            self.lemma_narrows_wf(old(self));
            assert(self.in_reach(border) && self.known().contains_key(border));
            self.lemma_measure(old(self));
        }
    }

    /// Rules out that the cell `p` belongs to the galaxy `id`. Returns whether it
    /// might have belonged to it before.
    fn exclude(&mut self, p: &Position, id: usize) -> (removed: bool)
        requires
            old(self).wf(),
            old(self).inside(*p),
        ensures
            final(self).wf(),
            final(self).narrows(old(self)),
            final(self).known() == old(self).known(),
            final(self).possible(*p) == old(self).possible(*p).remove(id),
            forall|q: Position|
                final(self).inside(q) && q != *p ==> #[trigger] final(self).possible(q) == old(self).possible(q),
            removed == old(self).possible(*p).contains(id),
            final(self).measure() <= old(self).measure(),
            removed ==> final(self).measure() < old(self).measure(),
            !removed ==> final(self).same_as(old(self)),
    {
        let row: usize = p.row as usize;
        let column: usize = p.column as usize;
        let ghost before = self.possible_galaxy_ids@;
        let removed = self.possible_galaxy_ids[row][column].remove(&id);
        proof {
            let after = self.possible_galaxy_ids@;
            assert forall|r: int, c: int|
                0 <= r < self.height && 0 <= c < self.width && !(r == row && c
                    == column) implies #[trigger] after[r]@[c] == before[r]@[c] by {
                if r != row {
                    assert(after[r] == before[r]);
                }
            }
            assert forall|q: Position| self.inside(q) && q != *p implies #[trigger] self.possible(
                q,
            ) == old(self).possible(q) by {
                assert(after[q.row as int]@[q.column as int] == before[q.row as int]@[q.column as int]);
            }
            assert(self.shaped()) by {
                assert forall|r: int| 0 <= r < self.height implies (#[trigger] after[r])@.len()
                    == self.width by {
                    if r != row {
                        assert(after[r] == before[r]);
                    }
                }
                assert forall|r: int, c: int|
                    0 <= r < self.height && 0 <= c < self.width implies (
                #[trigger] after[r]@[c]).wf() by {
                    if !(r == row && c == column) {
                        assert(after[r]@[c] == before[r]@[c]);
                    }
                }
            }
            assert forall|q: Position| self.inside(q) implies (
            #[trigger] self.possible(q)).subset_of(old(self).possible(q)) by {
                if q != *p {
                    assert(self.possible(q) == old(self).possible(q));
                }
            }
            self.lemma_narrows_wf(old(self));
            self.lemma_measure(old(self));
            if removed {
                assert(self.possible(*p) != old(self).possible(*p));
            } else {
                assert(self.possible(*p) =~= old(self).possible(*p));
                assert forall|q: Position| self.inside(q) implies #[trigger] self.possible(q)
                    == old(self).possible(q) by {}
            }
        }
        removed
    }

    /// The galaxy that the cell `p` is known to belong to, if it is known.
    pub fn certain_id(&self, p: &Position) -> (id: Option<usize>)
        requires
            self.shaped(),
            self.inside(*p),
        ensures
            match id {
                Some(id) => self.certain(*p, id),
                None => forall|id: usize| !self.certain(*p, id),
            },
    {
        let set = &self.possible_galaxy_ids[p.row as usize][p.column as usize];
        let ids = set.as_vec();
        let one = exactly_one(ids);
        proof {
            set.lemma_size();
            match one {
                Some(id) => {
                    assert(ids@ =~= seq![id]);
                    assert(self.possible(*p) =~= set![id]) by {
                        assert forall|x: usize| self.possible(*p).contains(x) <==> x == id by {
                            if x == id {
                                assert(ids@[0] == x);
                            }
                            if ids@.contains(x) {
                                let k = choose|k: int| 0 <= k < ids@.len() && ids@[k] == x;
                                assert(ids@[k] == x);
                            }
                        }
                    }
                },
                None => {
                    assert forall|id: usize| !self.certain(*p, id) by {
                        if self.possible(*p) == set![id] {
                            assert(set![id].len() == 1);
                        }
                    }
                },
            }
        }
        one
    }

    /// The cells that are known to belong to a galaxy, row by row, each with its
    /// galaxy.
    pub fn get_cells_with_certain_galaxy_id(&self) -> (cells: Vec<(Position, usize)>)
        requires
            self.wf(),
        ensures
            forall|k: int| 0 <= k < cells@.len() ==> self.certain(
                (#[trigger] cells@[k]).0,
                cells@[k].1,
            ),
            forall|p: Position, id: usize|
                self.certain(p, id) ==> exists|k: int|
                    0 <= k < cells@.len() && #[trigger] cells@[k] == (p, id),
            forall|i: int, j: int|
                0 <= i < j < cells@.len() ==> (#[trigger] cells@[i]).0.precedes(
                    (#[trigger] cells@[j]).0,
                ),
    {
        let mut cells: Vec<(Position, usize)> = Vec::new();
        let mut row: usize = 0;
        while row < self.height
            invariant
                self.wf(),
                row <= self.height,
                forall|k: int| 0 <= k < cells@.len() ==> self.certain(
                    (#[trigger] cells@[k]).0,
                    cells@[k].1,
                ),
                forall|p: Position, id: usize|
                    self.certain(p, id) && p.row < row ==> exists|k: int|
                        0 <= k < cells@.len() && #[trigger] cells@[k] == (p, id),
                forall|i: int, j: int|
                    0 <= i < j < cells@.len() ==> (#[trigger] cells@[i]).0.precedes(
                        (#[trigger] cells@[j]).0,
                    ),
                forall|k: int| 0 <= k < cells@.len() ==> (#[trigger] cells@[k]).0.row < row,
            decreases self.height - row,
        {
            let mut column: usize = 0;
            while column < self.width
                invariant
                    self.wf(),
                    row < self.height,
                    column <= self.width,
                    forall|k: int| 0 <= k < cells@.len() ==> self.certain(
                        (#[trigger] cells@[k]).0,
                        cells@[k].1,
                    ),
                    forall|p: Position, id: usize|
                        self.certain(p, id) && (p.row < row || (p.row == row && p.column < column))
                            ==> exists|k: int|
                            0 <= k < cells@.len() && #[trigger] cells@[k] == (p, id),
                    forall|i: int, j: int|
                        0 <= i < j < cells@.len() ==> (#[trigger] cells@[i]).0.precedes(
                            (#[trigger] cells@[j]).0,
                        ),
                    forall|k: int|
                        0 <= k < cells@.len() ==> (#[trigger] cells@[k]).0.row < row || (
                        cells@[k].0.row == row && cells@[k].0.column < column),
                decreases self.width - column,
            {
                let p = Position::at(row, column);
                let ghost before = cells@;
                match self.certain_id(&p) {
                    Some(id) => {
                        cells.push((p, id));
                    },
                    None => {},
                }
                proof {
                    assert forall|q: Position, id: usize|
                        self.certain(q, id) && (q.row < row || (q.row == row && q.column < column
                            + 1)) implies exists|k: int|
                        0 <= k < cells@.len() && #[trigger] cells@[k] == (q, id) by {
                        if q == p {
                            assert(cells@.len() == before.len() + 1);
                            assert(self.possible(p) == set![id]);
                            assert(set![id].contains(cells@[before.len() as int].1));
                            assert(cells@[before.len() as int] == (q, id));
                        } else {
                            let k = choose|k: int|
                                0 <= k < before.len() && #[trigger] before[k] == (q, id);
                            assert(cells@[k] == (q, id));
                        }
                    }
                }
                column += 1;
            }
            row += 1;
        }
        cells
    }

    /// The solver for `objective` on a grid of `width` columns and `height` rows,
    /// before anything is worked out: the walls of the objective and of the frame
    /// are known to stand, the cells around each center belong to its galaxy,
    /// and every other cell may belong to any galaxy. The objective is refused
    /// where the grid has no cells, where a cell around a center lies outside
    /// the grid, and where two centers share a cell.
    pub fn new(width: usize, height: usize, objective: &Objective) -> (result: Result<
        Solver,
        InvalidInput,
    >)
        requires
            objective.wf(),
            width <= COORDINATE_LIMIT,
            height <= COORDINATE_LIMIT,
        ensures
            match result {
                Ok(solver) => {
                    &&& solver.wf()
                    &&& solver.rows() == height
                    &&& solver.columns() == width
                    &&& solver.centers() == objective.center_seq()
                    &&& centers_inside(objective.centers(), height as int, width as int)
                    &&& centers_apart(objective.centers())
                    &&& forall|b: Border|
                        #![trigger solver.known().contains_key(b)]
                        solver.known().contains_key(b) <==> objective.walls().contains(b) || (
                        b.well_formed() && solver.on_frame(b))
                    &&& forall|b: Border| #[trigger]
                        solver.known().contains_key(b) ==> solver.known()[b]
                    &&& forall|p: Position, id: usize|
                        solver.inside(p) ==> (#[trigger] solver.possible(p).contains(id) <==> id
                            < solver.centers().len() && forall|k: int|
                            0 <= k < solver.centers().len()
                                && #[trigger] solver.centers()[k].position.surrounds(p) ==> k
                                == id)
                    &&& solver.anchored()
                },
                Err(InvalidInput::EmptyGrid) => width == 0 || height == 0,
                Err(InvalidInput::CenterOutOfBounds) => width >= 1 && height >= 1
                    && !centers_inside(objective.centers(), height as int, width as int),
                Err(InvalidInput::OverlappingCenters) => width >= 1 && height >= 1
                    && centers_inside(objective.centers(), height as int, width as int)
                    && !centers_apart(objective.centers()),
            },
    {
        match objective.check(width, height) {
            Err(reason) => {
                return Err(reason);
            },
            Ok(_) => {},
        }
        let galaxy_centers = objective.get_centers();
        let count: usize = galaxy_centers.len();
        proof {
            objective.lemma_listed();
        }
        let borders = Solver::first_borders(width, height, objective);
        let ghost known = borders@;
        let mut all: SortedSet<usize> = SortedSet::new();
        let mut id: usize = 0;
        while id < count
            invariant
                id <= count,
                all.wf(),
                forall|x: usize| all@.contains(x) <==> x < id,
            decreases count - id,
        {
            all.insert(id);
            id += 1;
        }
        let mut possible_galaxy_ids: Vec<Vec<SortedSet<usize>>> = Vec::new();
        let mut row: usize = 0;
        while row < height
            invariant
                row <= height,
                all.wf(),
                forall|x: usize| all@.contains(x) <==> x < count,
                possible_galaxy_ids@.len() == row,
                forall|r: int| 0 <= r < row ==> (#[trigger] possible_galaxy_ids@[r])@.len() == width,
                forall|r: int, c: int|
                    0 <= r < row && 0 <= c < width ==> (#[trigger] possible_galaxy_ids@[r]@[c]).wf()
                        && possible_galaxy_ids@[r]@[c]@ == all@,
            decreases height - row,
        {
            let mut line: Vec<SortedSet<usize>> = Vec::new();
            let mut column: usize = 0;
            while column < width
                invariant
                    column <= width,
                    all.wf(),
                    line@.len() == column,
                    forall|c: int|
                        0 <= c < column ==> (#[trigger] line@[c]).wf() && line@[c]@ == all@,
                decreases width - column,
            {
                line.push(all.copy());
                column += 1;
            }
            possible_galaxy_ids.push(line);
            row += 1;
        }
        let mut solver = Solver { width, height, galaxy_centers, borders, possible_galaxy_ids };
        let ghost centers = solver.centers();
        proof {
            assert(solver.known() == known);
            assert(solver.shaped());
            assert forall|k: int, p: Position|
                0 <= k < centers.len() && #[trigger] centers[k].position.surrounds(
                    p,
                ) implies solver.inside(p) by {
                assert(objective.center_seq().to_set().contains(centers[k]));
            }
            assert(solver.wf());
        }
        let mut k: usize = 0;
        while k < count
            invariant
                k <= count,
                count == centers.len(),
                centers == solver.centers(),
                centers == objective.center_seq(),
                centers.no_duplicates(),
                centers.to_set() == objective.centers(),
                centers_apart(objective.centers()),
                centers_inside(objective.centers(), height as int, width as int),
                forall|b: Border|
                    #![trigger known.contains_key(b)]
                    known.contains_key(b) <==> objective.walls().contains(b) || (
                    b.well_formed() && b.frames(height as int, width as int)),
                forall|b: Border| #[trigger] known.contains_key(b) ==> known[b],
                solver.wf(),
                solver.rows() == height,
                solver.columns() == width,
                solver.known() == known,
                forall|p: Position, id: usize|
                    solver.inside(p) ==> (#[trigger] solver.possible(p).contains(id) <==> id < count
                        && forall|j: int|
                        0 <= j < k && #[trigger] centers[j].position.surrounds(p) ==> j == id),
            decreases count - k,
        {
            let center = solver.galaxy_centers[k].position;
            let footprint = center.get_center_placement().get_positions(&center);
            let ghost start = solver;
            let mut i: usize = 0;
            while i < footprint.len()
                invariant
                    i <= footprint.len(),
                    k < count,
                    count == centers.len(),
                    centers == solver.centers(),
                    center == centers[k as int].position,
                    forall|p: Position| footprint@.contains(p) <==> center.surrounds(p),
                    footprint@.no_duplicates(),
                    solver.wf(),
                    solver.rows() == height,
                    solver.columns() == width,
                    solver.known() == known,
                    start.rows() == height,
                    start.columns() == width,
                    forall|p: Position, id: usize|
                        solver.inside(p) ==> (#[trigger] solver.possible(p).contains(id)
                            <==> start.possible(p).contains(id) && (footprint@.subrange(
                            0,
                            i as int,
                        ).contains(p) ==> id == k)),
                decreases footprint.len() - i,
            {
                let p = footprint[i];
                proof {
                    assert(footprint@.contains(p));
                    assert(centers[k as int].position.surrounds(p));
                    lemma_prefix_contains(footprint@, i as int);
                }
                solver.settle(&p, k);
                i += 1;
            }
            proof {
                assert(footprint@.subrange(0, footprint@.len() as int) =~= footprint@);
                assert forall|p: Position, id: usize| solver.inside(p) implies (
                #[trigger] solver.possible(p).contains(id) <==> id < count && forall|j: int|
                    0 <= j < k + 1 && #[trigger] centers[j].position.surrounds(p) ==> j == id) by {
                    assert(start.inside(p));
                    assert(footprint@.contains(p) <==> centers[k as int].position.surrounds(p));
                    assert(start.possible(p).contains(id) <==> id < count && forall|j: int|
                        0 <= j < k && #[trigger] centers[j].position.surrounds(p) ==> j == id);
                    if solver.possible(p).contains(id) {
                        assert forall|j: int|
                            0 <= j < k + 1 && #[trigger] centers[j].position.surrounds(
                                p,
                            ) implies j == id by {
                            if j < k {
                            }
                        }
                    }
                    if id < count && forall|j: int|
                        0 <= j < k + 1 && #[trigger] centers[j].position.surrounds(p) ==> j == id {
                        if centers[k as int].position.surrounds(p) {
                            assert(k == id);
                        }
                    }
                }
            }
            k += 1;
        }
        Ok(solver)
    }

    /// What is known of the borders at first: the walls of the objective and the
    /// walls of the frame stand.
    fn first_borders(width: usize, height: usize, objective: &Objective) -> (borders: SortedMap<
        Border,
        bool,
    >)
        requires
            objective.wf(),
            width <= COORDINATE_LIMIT,
            height <= COORDINATE_LIMIT,
        ensures
            borders.wf(),
            forall|b: Border|
                #![trigger borders@.contains_key(b)]
                borders@.contains_key(b) <==> objective.walls().contains(b) || (b.well_formed()
                    && b.frames(height as int, width as int)),
            forall|b: Border| #[trigger] borders@.contains_key(b) ==> borders@[b],
    {
        let mut borders: SortedMap<Border, bool> = SortedMap::new();
        let walls = objective.get_walls();
        proof {
            objective.lemma_listed();
        }
        let mut i: usize = 0;
        while i < walls.len()
            invariant
                i <= walls.len(),
                borders.wf(),
                forall|b: Border|
                    #![trigger borders@.contains_key(b)]
                    borders@.contains_key(b) <==> walls@.subrange(0, i as int).contains(b),
                forall|b: Border| #[trigger] borders@.contains_key(b) ==> borders@[b],
            decreases walls.len() - i,
        {
            proof {
                lemma_prefix_contains(walls@, i as int);
            }
            borders.insert(walls[i], true);
            i += 1;
        }
        proof {
            assert(walls@.subrange(0, walls@.len() as int) =~= walls@);
            assert forall|b: Border| borders@.contains_key(b) <==> objective.walls().contains(b) by {
                assert(walls@.to_set().contains(b) <==> walls@.contains(b));
            }
        }
        let mut column: usize = 0;
        while column < width
            invariant
                column <= width <= COORDINATE_LIMIT,
                height <= COORDINATE_LIMIT,
                borders.wf(),
                forall|b: Border|
                    #![trigger borders@.contains_key(b)]
                    borders@.contains_key(b) <==> objective.walls().contains(b) || (
                    b.well_formed() && b.frames(height as int, width as int) && b.first().column == b.second().column
                        && b.first().column < column),
                forall|b: Border| #[trigger] borders@.contains_key(b) ==> borders@[b],
            decreases width - column,
        {
            let top = Border::up(Position::at(0, column));
            let bottom = Border::up(Position::at(height, column));
            let ghost before = borders@;
            borders.insert(top, true);
            borders.insert(bottom, true);
            proof {
                top.lemma_well_formed();
                bottom.lemma_well_formed();
                assert(borders@ == before.insert(top, true).insert(bottom, true));
                assert(top.frames(height as int, width as int) && bottom.frames(height as int, width as int));
                assert forall|b: Border|
                    #![trigger borders@.contains_key(b)]
                    borders@.contains_key(b) <==> objective.walls().contains(b) || (
                    b.well_formed() && b.frames(height as int, width as int) && b.first().column == b.second().column
                        && b.first().column < column + 1) by {
                    b.lemma_well_formed();
                    if b.well_formed() && b.frames(height as int, width as int) && b.first().column
                        == b.second().column && b.first().column == column {
                        if b.first().row == -1 {
                            Border::lemma_same(b, top);
                        } else {
                            Border::lemma_same(b, bottom);
                        }
                    }
                }
            }
            column += 1;
        }
        let mut row: usize = 0;
        while row < height
            invariant
                row <= height <= COORDINATE_LIMIT,
                width <= COORDINATE_LIMIT,
                borders.wf(),
                forall|b: Border|
                    #![trigger borders@.contains_key(b)]
                    borders@.contains_key(b) <==> objective.walls().contains(b) || (
                    b.well_formed() && b.frames(height as int, width as int) && (b.first().column
                        == b.second().column || b.first().row < row)),
                forall|b: Border| #[trigger] borders@.contains_key(b) ==> borders@[b],
            decreases height - row,
        {
            let left = Border::left(Position::at(row, 0));
            let right = Border::left(Position::at(row, width));
            let ghost before = borders@;
            borders.insert(left, true);
            borders.insert(right, true);
            proof {
                left.lemma_well_formed();
                right.lemma_well_formed();
                assert(borders@ == before.insert(left, true).insert(right, true));
                assert(left.frames(height as int, width as int) && right.frames(height as int, width as int));
                assert forall|b: Border|
                    #![trigger borders@.contains_key(b)]
                    borders@.contains_key(b) <==> objective.walls().contains(b) || (
                    b.well_formed() && b.frames(height as int, width as int) && (b.first().column
                        == b.second().column || b.first().row < row + 1)) by {
                    b.lemma_well_formed();
                    if b.well_formed() && b.frames(height as int, width as int) && b.first().column
                        != b.second().column && b.first().row == row {
                        if b.first().column == -1 {
                            Border::lemma_same(b, left);
                        } else {
                            Border::lemma_same(b, right);
                        }
                    }
                }
            }
            row += 1;
        }
        borders
    }

    /// Takes it that the cell `p` belongs to the galaxy `id`: rules out every
    /// other galaxy.
    fn settle(&mut self, p: &Position, id: usize)
        requires
            old(self).wf(),
            old(self).inside(*p),
        ensures
            final(self).wf(),
            final(self).narrows(old(self)),
            final(self).known() == old(self).known(),
            forall|x: usize|
                final(self).possible(*p).contains(x) <==> old(self).possible(*p).contains(x) && x
                    == id,
            forall|q: Position|
                final(self).inside(q) && q != *p ==> #[trigger] final(self).possible(q) == old(self).possible(q),
            final(self).measure() <= old(self).measure(),
            final(self).possible(*p) != old(self).possible(*p) ==> final(self).measure() < old(self).measure(),
    {
        let ids = self.get_possible(p);
        let ghost start = *self;
        let mut i: usize = 0;
        while i < ids.len()
            invariant
                i <= ids.len(),
                start.wf(),
                start.inside(*p),
                ids@.to_set() == start.possible(*p),
                self.wf(),
                self.narrows(&start),
                self.known() == start.known(),
                forall|x: usize|
                    self.possible(*p).contains(x) <==> start.possible(*p).contains(x) && (x == id
                        || !ids@.subrange(0, i as int).contains(x)),
                forall|q: Position|
                    self.inside(q) && q != *p ==> #[trigger] self.possible(q) == start.possible(q),
            decreases ids.len() - i,
        {
            let other = ids[i];
            proof {
                lemma_prefix_contains(ids@, i as int);
            }
            if other != id {
                let ghost middle = *self;
                self.exclude(p, other);
                proof {
                    self.lemma_narrows_chain(&middle, &start);
                }
            }
            i += 1;
        }
        proof {
            assert(ids@.subrange(0, ids@.len() as int) =~= ids@);
            assert forall|x: usize|
                self.possible(*p).contains(x) <==> old(self).possible(*p).contains(x) && x
                    == id by {
                assert(ids@.to_set().contains(x) <==> ids@.contains(x));
            }
            self.lemma_measure(old(self));
        }
    }
}

impl Solver {
    /// Of the neighbouring cells `p` and `q`, both known to belong to a galaxy,
    /// what is known of their border is right: a wall stands there just where
    /// they belong to different galaxies.
    pub open spec fn agreed(&self, p: Position, q: Position, i: usize, j: usize) -> bool {
        self.known().contains_key(Border::between(p, q)) && self.known()[Border::between(p, q)]
            == (i != j)
    }

    /// Between every two neighbouring cells that are known to belong to a
    /// galaxy, the border is known, and right.
    pub open spec fn known_galaxies_parted(&self) -> bool {
        forall|p: Position, q: Position, i: usize, j: usize|
            #![trigger self.certain(p, i), self.certain(q, j)]
            self.certain(p, i) && self.certain(q, j) && p.adjacent_to(q) ==> self.agreed(
                p,
                q,
                i,
                j,
            )
    }

    /// Two neighbouring cells are known to belong to a galaxy, and what is known
    /// of their border is wrong.
    pub open spec fn known_galaxies_clash(&self) -> bool {
        exists|p: Position, q: Position, i: usize, j: usize|
            #![trigger self.certain(p, i), self.certain(q, j)]
            self.certain(p, i) && self.certain(q, j) && p.adjacent_to(q)
                && self.known().contains_key(Border::between(p, q)) && self.known()[Border::between(
                p,
                q,
            )] == (i == j)
    }

    /// Cells that belong to different galaxies have a wall between them, and
    /// cells that belong to the same galaxy have none: between every two
    /// neighbouring cells that are known to belong to a galaxy, the border is
    /// made known. Returns whether anything new became known, or the
    /// contradiction that a border is known to be otherwise.
    pub fn add_borders_between_known_galaxies(&mut self) -> (result: Result<bool, Contradiction>)
        requires
            old(self).wf(),
        ensures
            final(self).narrows(old(self)),
            final(self).wf(),
            forall|p: Position|
                final(self).inside(p) ==> #[trigger] final(self).possible(p) == old(self).possible(
                    p,
                ),
            final(self).measure() <= old(self).measure(),
            final(self).keeps_solutions(old(self)),
            forall|b: Border|
                #![trigger final(self).known().contains_key(b)]
                final(self).known().contains_key(b) && !old(self).known().contains_key(b)
                    ==> exists|p: Position, q: Position, i: usize, j: usize|
                    #![trigger old(self).certain(p, i), old(self).certain(q, j)]
                    old(self).certain(p, i) && old(self).certain(q, j) && p.adjacent_to(q) && b
                        == Border::between(p, q) && final(self).known()[b] == (i != j),
            match result {
                Ok(changed) => {
                    &&& final(self).known_galaxies_parted()
                    &&& changed ==> final(self).measure() < old(self).measure()
                    &&& !changed ==> final(self).same_as(old(self))
                },
                Err(_) => old(self).known_galaxies_clash() && old(self).hopeless(),
            },
    {
        let cells = self.get_cells_with_certain_galaxy_id();
        let ghost before = *self;
        let mut changed: bool = false;
        let mut k: usize = 0;
        assert(self.keeps_solutions(&before));
        while k < cells.len()
            invariant
                k <= cells.len(),
                before == *old(self),
                before.wf(),
                self.wf(),
                self.narrows(&before),
                forall|p: Position|
                    self.inside(p) ==> #[trigger] self.possible(p) == before.possible(p),
                self.measure() <= before.measure(),
                self.keeps_solutions(&before),
                changed ==> self.measure() < before.measure(),
                !changed ==> self.known() == before.known(),
                forall|m: int| 0 <= m < cells@.len() ==> before.certain(
                    (#[trigger] cells@[m]).0,
                    cells@[m].1,
                ),
                forall|p: Position, id: usize|
                    before.certain(p, id) ==> exists|m: int|
                        0 <= m < cells@.len() && #[trigger] cells@[m] == (p, id),
                forall|b: Border|
                    #![trigger self.known().contains_key(b)]
                    self.known().contains_key(b) && !before.known().contains_key(b) ==> exists|
                        p: Position,
                        q: Position,
                        i: usize,
                        j: usize,
                    |
                        #![trigger before.certain(p, i), before.certain(q, j)]
                        before.certain(p, i) && before.certain(q, j) && p.adjacent_to(q) && b
                            == Border::between(p, q) && self.known()[b] == (i != j),
                forall|m: int, q: Position, j: usize|
                    #![trigger cells@[m], before.certain(q, j)]
                    0 <= m < k && before.certain(q, j) && cells@[m].0.adjacent_to(q)
                        ==> self.agreed(cells@[m].0, q, cells@[m].1, j),
            decreases cells.len() - k,
        {
            let (position, id) = cells[k];
            assert(before.certain(cells@[k as int].0, cells@[k as int].1));
            let around = position.adjacent();
            let mut n: usize = 0;
            while n < around.len()
                invariant
                    k < cells.len(),
                    n <= around.len() == 4,
                    (position, id) == cells@[k as int],
                    before.certain(position, id),
                    forall|q: Position| #[trigger] around@.contains(q) <==> position.adjacent_to(q),
                    before == *old(self),
                    before.wf(),
                    self.wf(),
                    self.narrows(&before),
                    forall|p: Position|
                        self.inside(p) ==> #[trigger] self.possible(p) == before.possible(p),
                    self.measure() <= before.measure(),
                    self.keeps_solutions(&before),
                    changed ==> self.measure() < before.measure(),
                    !changed ==> self.known() == before.known(),
                    forall|b: Border|
                        #![trigger self.known().contains_key(b)]
                        self.known().contains_key(b) && !before.known().contains_key(b)
                            ==> exists|p: Position, q: Position, i: usize, j: usize|
                            #![trigger before.certain(p, i), before.certain(q, j)]
                            before.certain(p, i) && before.certain(q, j) && p.adjacent_to(q) && b
                                == Border::between(p, q) && self.known()[b] == (i != j),
                    forall|m: int, q: Position, j: usize|
                        #![trigger cells@[m], before.certain(q, j)]
                        0 <= m < k && before.certain(q, j) && cells@[m].0.adjacent_to(q)
                            ==> self.agreed(cells@[m].0, q, cells@[m].1, j),
                    forall|t: int, j: usize|
                        #![trigger around@[t], before.certain(around@[t], j)]
                        0 <= t < n && before.certain(around@[t], j) ==> self.agreed(
                            position,
                            around@[t],
                            id,
                            j,
                        ),
                decreases around.len() - n,
            {
                let neighbour = around[n];
                assert(around@.contains(neighbour));
                let ghost start = *self;
                let ghost mut found: Option<usize> = None;
                if self.contains(&neighbour) {
                    match self.certain_id(&neighbour) {
                        Some(other) => {
                            proof {
                                assert(self.possible(neighbour) == before.possible(neighbour));
                                assert(before.certain(neighbour, other));
                                found = Some(other);
                            }
                            let border = Border::new(position, neighbour);
                            let wall: bool = id != other;
                            match self.get_border(&border) {
                                Some(known) => {
                                    if known != wall {
                                        proof {
                                            before.lemma_clash(
                                                self,
                                                position,
                                                neighbour,
                                                id,
                                                other,
                                            );
                                            before.lemma_clash_hopeless();
                                            self.lemma_hopeless_keeps(&before);
                                        }
                                        return Err(Contradiction);
                                    }
                                },
                                None => {
                                    let ghost middle = *self;
                                    proof {
                                        border.lemma_well_formed();
                                    }
                                    self.learn(border, wall);
                                    changed = true;
                                    proof {
                                        self.lemma_narrows_chain(&middle, &before);
                                        assert forall|a: spec_fn(Position) -> usize|
                                            #[trigger] middle.consistent(a) implies wall
                                            == middle.stands(a, border) by {
                                            assert(middle.certain(position, id));
                                            assert(middle.certain(neighbour, other));
                                            middle.lemma_certain(a, position, id);
                                            middle.lemma_certain(a, neighbour, other);
                                            Border::lemma_of(position, neighbour);
                                            Border::lemma_of(neighbour, position);
                                        }
                                        self.lemma_learned(&middle, border, wall);
                                        self.lemma_keeps_chain(&middle, &before);
                                        assert forall|b: Border|
                                            #![trigger self.known().contains_key(b)]
                                            self.known().contains_key(b)
                                                && !before.known().contains_key(
                                                b,
                                            ) implies exists|
                                            p: Position,
                                            q: Position,
                                            i: usize,
                                            j: usize,
                                        |
                                            #![trigger before.certain(p, i), before.certain(q, j)]
                                            before.certain(p, i) && before.certain(q, j)
                                                && p.adjacent_to(q) && b == Border::between(p, q)
                                                && self.known()[b] == (i != j) by {
                                            if b == border {
                                                assert(before.certain(position, id)
                                                    && before.certain(neighbour, other));
                                            } else {
                                                assert(middle.known().contains_key(b));
                                                let (p, q, i, j) = choose|
                                                    p: Position,
                                                    q: Position,
                                                    i: usize,
                                                    j: usize,
                                                |
                                                    #![trigger before.certain(p, i), before.certain(q, j)]
                                                    before.certain(p, i) && before.certain(q, j)
                                                        && p.adjacent_to(q) && b
                                                        == Border::between(p, q)
                                                        && middle.known()[b] == (i != j);
                                                assert(before.certain(p, i) && before.certain(
                                                    q,
                                                    j,
                                                ));
                                            }
                                        }
                                    }
                                },
                            }
                        },
                        None => {
                            proof {
                                assert(self.possible(neighbour) == before.possible(neighbour));
                                assert forall|j: usize| !before.certain(neighbour, j) by {
                                    assert(!self.certain(neighbour, j));
                                }
                            }
                        },
                    }
                }
                proof {
                    assert forall|t: int, j: usize|
                        #![trigger around@[t], before.certain(around@[t], j)]
                        0 <= t < n + 1 && before.certain(around@[t], j) implies self.agreed(
                        position,
                        around@[t],
                        id,
                        j,
                    ) by {
                        if t == n {
                            assert(found is Some);
                            assert(set![j] == set![found->0]);
                            assert(set![j].contains(found->0));
                        } else {
                            assert(start.agreed(position, around@[t], id, j));
                        }
                    }
                }
                n += 1;
            }
            proof {
                assert forall|m: int, q: Position, j: usize|
                    #![trigger cells@[m], before.certain(q, j)]
                    0 <= m < k + 1 && before.certain(q, j) && cells@[m].0.adjacent_to(
                        q,
                    ) implies self.agreed(cells@[m].0, q, cells@[m].1, j) by {
                    if m == k {
                        assert(around@.contains(q));
                        let t = choose|t: int| 0 <= t < around@.len() && around@[t] == q;
                        assert(before.certain(around@[t], j));
                    }
                }
            }
            k += 1;
        }
        proof {
            assert forall|p: Position, q: Position, i: usize, j: usize|
                #![trigger self.certain(p, i), self.certain(q, j)]
                self.certain(p, i) && self.certain(q, j) && p.adjacent_to(q) implies self.agreed(
                p,
                q,
                i,
                j,
            ) by {
                assert(before.certain(p, i) && before.certain(q, j));
                let m = choose|m: int| 0 <= m < cells@.len() && #[trigger] cells@[m] == (p, i);
                assert(self.agreed(cells@[m].0, q, cells@[m].1, j));
            }
            if !changed {
                assert(self.same_as(&before));
            }
        }
        Ok(changed)
    }

    /// Where a border between two cells of known galaxies is known to be
    /// otherwise in a solver that knows no less, it was known to be otherwise
    /// from the first.
    proof fn lemma_clash(&self, later: &Solver, p: Position, q: Position, i: usize, j: usize)
        requires
            self.wf(),
            later.narrows(self),
            self.certain(p, i),
            self.certain(q, j),
            p.adjacent_to(q),
            later.known().contains_key(Border::between(p, q)),
            later.known()[Border::between(p, q)] == (i == j),
            forall|b: Border|
                #![trigger later.known().contains_key(b)]
                later.known().contains_key(b) && !self.known().contains_key(b) ==> exists|
                    p: Position,
                    q: Position,
                    i: usize,
                    j: usize,
                |
                    #![trigger self.certain(p, i), self.certain(q, j)]
                    self.certain(p, i) && self.certain(q, j) && p.adjacent_to(q) && b
                        == Border::between(p, q) && later.known()[b] == (i != j),
        ensures
            self.known_galaxies_clash(),
    {
        let b = Border::between(p, q);
        if self.known().contains_key(b) {
            assert(self.certain(p, i) && self.certain(q, j));
        } else {
            let (p2, q2, i2, j2) = choose|p2: Position, q2: Position, i2: usize, j2: usize|
                #![trigger self.certain(p2, i2), self.certain(q2, j2)]
                self.certain(p2, i2) && self.certain(q2, j2) && p2.adjacent_to(q2) && b
                    == Border::between(p2, q2) && later.known()[b] == (i2 != j2);
            Border::lemma_of(p, q);
            Border::lemma_of(q, p);
            Border::lemma_of(p2, q2);
            Border::lemma_of(q2, p2);
            assert((p2 == p && q2 == q) || (p2 == q && q2 == p));
            assert(set![i].contains(i));
            assert(set![j].contains(j));
            assert(set![i2].contains(i2));
            assert(set![j2].contains(j2));
            assert(false);
        }
    }
}

/// The border `b` is one of the four borders of the cell `p`.
pub open spec fn touches(b: Border, p: Position) -> bool {
    b.well_formed() && (b.first() == p || b.second() == p)
}

impl Solver {
    /// Where the border `b` is known, its mirror through the center of the
    /// galaxy `id` is known to be the same.
    pub open spec fn mirror_agrees(&self, id: usize, b: Border) -> bool {
        let mirror = mirror_border(self.centers()[id as int].position, b);
        self.known().contains_key(b) ==> self.known().contains_key(mirror) && self.known()[mirror]
            == self.known()[b]
    }

    /// Of every cell that is known to belong to a galaxy, every border that is
    /// known has a mirror through the center of the galaxy that is known to be
    /// the same.
    pub open spec fn borders_mirrored(&self) -> bool {
        forall|p: Position, id: usize, b: Border|
            #![trigger self.certain(p, id), touches(b, p)]
            self.certain(p, id) && touches(b, p) ==> self.mirror_agrees(id, b)
    }

    /// A border of a cell that is known to belong to a galaxy is known, and its
    /// mirror through the center of the galaxy is known to be otherwise.
    pub open spec fn mirror_clash(&self) -> bool {
        exists|p: Position, id: usize, b: Border|
            #![trigger self.certain(p, id), touches(b, p)]
            self.certain(p, id) && touches(b, p) && self.known().contains_key(b)
                && self.known().contains_key(mirror_border(self.centers()[id as int].position, b))
                && self.known()[mirror_border(self.centers()[id as int].position, b)]
                != self.known()[b]
    }

    /// The centers lie within the doubled grid.
    pub proof fn lemma_center(&self, id: int)
        requires
            self.wf(),
            0 <= id < self.centers().len(),
        ensures
            0 <= self.centers()[id].position.row <= 2 * (self.rows() - 1),
            0 <= self.centers()[id].position.column <= 2 * (self.columns() - 1),
    {
        let c = self.centers()[id].position;
        let low = Position {
            row: crate::position::half_floor_spec(c.row as int) as i32,
            column: crate::position::half_floor_spec(c.column as int) as i32,
        };
        let high = Position {
            row: (c.row - crate::position::half_floor_spec(c.row as int)) as i32,
            column: (c.column - crate::position::half_floor_spec(c.column as int)) as i32,
        };
        assert(c.surrounds(low));
        assert(c.surrounds(high));
        assert(self.inside(low) && self.inside(high));
    }

    /// The border `b` is known to be what its mirror is: it is the mirror,
    /// through the center of a galaxy, of a border of a cell that `before` knew
    /// to belong to that galaxy, and that border is known to be the same.
    pub open spec fn reflects(&self, before: &Solver, b: Border) -> bool {
        exists|p: Position, id: usize, from: Border|
            #![trigger before.certain(p, id), touches(from, p)]
            before.certain(p, id) && touches(from, p) && b == mirror_border(
                self.centers()[id as int].position,
                from,
            ) && self.known().contains_key(from) && self.known().contains_key(b)
                && self.known()[from] == self.known()[b]
    }

    /// Whatever has become known since `before` is known to be what its mirror
    /// is.
    pub open spec fn learned_by_mirror(&self, before: &Solver) -> bool {
        forall|b: Border|
            #![trigger self.known().contains_key(b)]
            self.known().contains_key(b) && !before.known().contains_key(b) ==> self.reflects(
                before,
                b,
            )
    }

    /// What was learned by mirror stays so when one more border is.
    proof fn lemma_learned_by_mirror(
        &self,
        middle: &Solver,
        before: &Solver,
        p: Position,
        id: usize,
        from: Border,
        mirrored: Border,
    )
        requires
            middle.learned_by_mirror(before),
            middle.narrows(before),
            self.narrows(middle),
            before.certain(p, id),
            touches(from, p),
            mirrored == mirror_border(middle.centers()[id as int].position, from),
            forall|b: Border|
                #![trigger self.known().contains_key(b)]
                self.known().contains_key(b) && !middle.known().contains_key(b) ==> b == mirrored
                    && self.known().contains_key(from) && self.known()[from]
                    == self.known()[mirrored],
        ensures
            self.learned_by_mirror(before),
    {
        assert forall|b: Border|
            #![trigger self.known().contains_key(b)]
            self.known().contains_key(b) && !before.known().contains_key(b) implies self.reflects(
            before,
            b,
        ) by {
            if middle.known().contains_key(b) {
                assert(middle.reflects(before, b));
                let (q, i, f) = choose|q: Position, i: usize, f: Border|
                    #![trigger before.certain(q, i), touches(f, q)]
                    before.certain(q, i) && touches(f, q) && b == mirror_border(
                        middle.centers()[i as int].position,
                        f,
                    ) && middle.known().contains_key(f) && middle.known().contains_key(b)
                        && middle.known()[f] == middle.known()[b];
                assert(before.certain(q, i) && touches(f, q));
                assert(self.known().contains_key(f) && self.known()[f] == middle.known()[f]);
                assert(self.known()[b] == middle.known()[b]);
            } else {
                assert(before.certain(p, id) && touches(from, p));
            }
        }
    }

    /// Makes the border `mirrored` known to be what the border `border` is known
    /// to be, if that is known. Returns whether anything new became known, or the
    /// contradiction that the two are known to differ.
    fn mirror_one(&mut self, position: Position, id: usize, border: Border, mirrored: Border) -> (result: Result<
        bool,
        Contradiction,
    >)
        requires
            old(self).wf(),
            old(self).in_reach(mirrored),
            old(self).certain(position, id),
            touches(border, position),
            mirrored == mirror_border(old(self).centers()[id as int].position, border),
        ensures
            final(self).keeps_solutions(old(self)),
            final(self).narrows(old(self)),
            final(self).wf(),
            forall|p: Position|
                final(self).inside(p) ==> #[trigger] final(self).possible(p) == old(self).possible(
                    p,
                ),
            final(self).measure() <= old(self).measure(),
            forall|b: Border|
                #![trigger final(self).known().contains_key(b)]
                final(self).known().contains_key(b) && !old(self).known().contains_key(b) ==> b
                    == mirrored && final(self).known().contains_key(border)
                    && final(self).known()[border] == final(self).known()[mirrored],
            match result {
                Ok(changed) => {
                    &&& changed ==> final(self).measure() < old(self).measure()
                    &&& !changed ==> final(self).same_as(old(self))
                    &&& final(self).known().contains_key(border) ==> final(self).known().contains_key(mirrored) && final(self).known()[mirrored] == final(self).known()[border]
                },
                Err(_) => final(self).same_as(old(self)) && final(self).known().contains_key(border)
                    && final(self).known().contains_key(mirrored) && final(self).known()[mirrored]
                    != final(self).known()[border] && old(self).hopeless(),
            },
    {
        proof {
            assert forall|a: spec_fn(Position) -> usize| #[trigger]
                self.consistent(a) implies self.stands(a, mirrored) == self.stands(a, border)
                && mirrored.well_formed() && (self.inside(mirrored.first()) || self.inside(
                mirrored.second(),
            )) && (self.known().contains_key(border) ==> self.known()[border] == self.stands(
                a,
                border,
            )) by {
                self.lemma_certain(a, position, id);
                self.lemma_mirror_stands(a, position, border);
            }
        }
        match self.get_border(&border) {
            Some(wall) => {
                match self.get_border(&mirrored) {
                    Some(other) => {
                        if wall != other {
                            proof {
                                assert forall|a: spec_fn(Position) -> usize|
                                    !#[trigger] self.consistent(a) by {
                                    if self.consistent(a) {
                                        assert(self.known()[mirrored] == self.stands(a, mirrored));
                                    }
                                }
                            }
                            return Err(Contradiction);
                        }
                        Ok(false)
                    },
                    None => {
                        self.learn(mirrored, wall);
                        proof {
                            self.lemma_learned(old(self), mirrored, wall);
                        }
                        Ok(true)
                    },
                }
            },
            None => Ok(false),
        }
    }

    /// The galaxies are symmetric, and so are their borders: of every cell that
    /// is known to belong to a galaxy, each border that is known makes its
    /// mirror through the center of the galaxy known. Returns whether anything
    /// new became known, or the contradiction that a mirror is known to be
    /// otherwise.
    pub fn mirror_borders(&mut self) -> (result: Result<bool, Contradiction>)
        requires
            old(self).wf(),
        ensures
            final(self).narrows(old(self)),
            final(self).wf(),
            forall|p: Position|
                final(self).inside(p) ==> #[trigger] final(self).possible(p) == old(self).possible(
                    p,
                ),
            final(self).measure() <= old(self).measure(),
            final(self).keeps_solutions(old(self)),
            final(self).learned_by_mirror(old(self)),
            match result {
                Ok(changed) => {
                    &&& changed ==> final(self).measure() < old(self).measure()
                    &&& !changed ==> final(self).same_as(old(self)) && final(self).borders_mirrored()
                },
                Err(_) => final(self).mirror_clash() && old(self).hopeless(),
            },
    {
        let cells = self.get_cells_with_certain_galaxy_id();
        let ghost before = *self;
        let mut changed: bool = false;
        let mut k: usize = 0;
        assert(self.keeps_solutions(&before));
        while k < cells.len()
            invariant
                k <= cells.len(),
                before == *old(self),
                before.wf(),
                self.wf(),
                self.narrows(&before),
                forall|p: Position|
                    self.inside(p) ==> #[trigger] self.possible(p) == before.possible(p),
                self.measure() <= before.measure(),
                self.keeps_solutions(&before),
                self.learned_by_mirror(&before),
                changed ==> self.measure() < before.measure(),
                !changed ==> self.same_as(&before),
                forall|m: int| 0 <= m < cells@.len() ==> before.certain(
                    (#[trigger] cells@[m]).0,
                    cells@[m].1,
                ),
                forall|p: Position, id: usize|
                    before.certain(p, id) ==> exists|m: int|
                        0 <= m < cells@.len() && #[trigger] cells@[m] == (p, id),
                !changed ==> forall|m: int, b: Border|
                    #![trigger cells@[m], touches(b, cells@[m].0)]
                    0 <= m < k && touches(b, cells@[m].0) ==> self.mirror_agrees(cells@[m].1, b),
            decreases cells.len() - k,
        {
            let (position, id) = cells[k];
            proof {
                assert(before.certain(cells@[k as int].0, cells@[k as int].1));
                assert(before.possible(position).contains(id));
                self.lemma_center(id as int);
            }
            let center = self.galaxy_centers[id].position;
            let mirrored = center.mirror_position(&position);
            let ghost start = *self;
            let up = Border::up(position);
            let down = Border::down(position);
            let left = Border::left(position);
            let right = Border::right(position);
            let mirrored_up = Border::down(mirrored);
            let mirrored_down = Border::up(mirrored);
            let mirrored_left = Border::right(mirrored);
            let mirrored_right = Border::left(mirrored);
            proof {
                mirrored_up.lemma_well_formed();
                mirrored_down.lemma_well_formed();
                mirrored_left.lemma_well_formed();
                mirrored_right.lemma_well_formed();
                Border::lemma_of(center.mirrored(up.second()), center.mirrored(up.first()));
                Border::lemma_same(mirrored_up, mirror_border(center, up));
                Border::lemma_of(center.mirrored(down.second()), center.mirrored(down.first()));
                Border::lemma_same(mirrored_down, mirror_border(center, down));
                Border::lemma_of(center.mirrored(left.second()), center.mirrored(left.first()));
                Border::lemma_same(mirrored_left, mirror_border(center, left));
                Border::lemma_of(center.mirrored(right.second()), center.mirrored(right.first()));
                Border::lemma_same(mirrored_right, mirror_border(center, right));
            }
            let mut step: usize = 0;
            while step < 4
                invariant
                    step <= 4,
                    k < cells.len(),
                    (position, id) == cells@[k as int],
                    before.certain(position, id),
                    id < self.centers().len(),
                    center == self.centers()[id as int].position,
                    before == *old(self),
                    before.wf(),
                    self.wf(),
                    self.narrows(&before),
                    forall|p: Position|
                        self.inside(p) ==> #[trigger] self.possible(p) == before.possible(p),
                    self.measure() <= before.measure(),
                    self.keeps_solutions(&before),
                    self.learned_by_mirror(&before),
                    changed ==> self.measure() < before.measure(),
                    !changed ==> self.same_as(&before),
                    touches(up, position) && touches(down, position) && touches(left, position)
                        && touches(right, position),
                    self.in_reach(mirrored_up) && self.in_reach(mirrored_down) && self.in_reach(
                        mirrored_left,
                    ) && self.in_reach(mirrored_right),
                    mirrored_up == mirror_border(center, up),
                    mirrored_down == mirror_border(center, down),
                    mirrored_left == mirror_border(center, left),
                    mirrored_right == mirror_border(center, right),
                    !changed ==> forall|m: int, b: Border|
                        #![trigger cells@[m], touches(b, cells@[m].0)]
                        0 <= m < k && touches(b, cells@[m].0) ==> self.mirror_agrees(
                            cells@[m].1,
                            b,
                        ),
                    !changed ==> (step > 0 ==> self.mirror_agrees(id, up)) && (step > 1
                        ==> self.mirror_agrees(id, left)) && (step > 2 ==> self.mirror_agrees(
                        id,
                        right,
                    )) && (step > 3 ==> self.mirror_agrees(id, down)),
                decreases 4 - step,
            {
                let (border, mirror) = if step == 0 {
                    (up, mirrored_up)
                } else if step == 1 {
                    (left, mirrored_left)
                } else if step == 2 {
                    (right, mirrored_right)
                } else {
                    (down, mirrored_down)
                };
                let ghost middle = *self;
                assert(self.certain(position, id));
                match self.mirror_one(position, id, border, mirror) {
                    Err(contradiction) => {
                        proof {
                            assert(self.certain(position, id));
                            assert(touches(border, position));
                            assert forall|a: spec_fn(Position) -> usize|
                                !#[trigger] before.consistent(a) by {
                                if before.consistent(a) {
                                    assert(middle.consistent(a));
                                }
                            }
                            self.lemma_hopeless_keeps(&before);
                            self.lemma_learned_by_mirror(
                                &middle,
                                &before,
                                position,
                                id,
                                border,
                                mirror,
                            );
                        }
                        return Err(contradiction);
                    },
                    Ok(learned) => {
                        proof {
                            self.lemma_learned_by_mirror(
                                &middle,
                                &before,
                                position,
                                id,
                                border,
                                mirror,
                            );
                            self.lemma_narrows_chain(&middle, &before);
                            self.lemma_keeps_chain(&middle, &before);
                        }
                        if learned {
                            changed = true;
                        }
                    },
                }
                step += 1;
            }
            proof {
                if !changed {
                    assert forall|m: int, b: Border|
                        #![trigger cells@[m], touches(b, cells@[m].0)]
                        0 <= m < k + 1 && touches(
                            b,
                            cells@[m].0,
                        ) implies self.mirror_agrees(cells@[m].1, b) by {
                        if m == k {
                            b.lemma_well_formed();
                            if b.first() == position {
                                if b.second().row == position.row {
                                    Border::lemma_same(b, right);
                                } else {
                                    Border::lemma_same(b, down);
                                }
                            } else {
                                if b.first().row == position.row {
                                    Border::lemma_same(b, left);
                                } else {
                                    Border::lemma_same(b, up);
                                }
                            }
                        }
                    }
                }
            }
            k += 1;
        }
        proof {
            if !changed {
                assert forall|p: Position, id: usize, b: Border|
                    #![trigger self.certain(p, id), touches(b, p)]
                    self.certain(p, id) && touches(b, p) implies self.mirror_agrees(id, b) by {
                    assert(before.certain(p, id));
                    let m = choose|m: int| 0 <= m < cells@.len() && #[trigger] cells@[m] == (p, id);
                    assert(touches(b, cells@[m].0));
                }
            }
        }
        Ok(changed)
    }
}

/// The solver, seen as the terrain in which the galaxy `id` can spread: its cells
/// are those that may belong to the galaxy, and its walls those that are known
/// to stand.
pub struct Spread<'a> {
    pub solver: &'a Solver,
    pub id: usize,
}

impl<'a> Terrain for Spread<'a> {
    open spec fn valid(&self) -> bool {
        self.solver.wf()
    }

    open spec fn cells(&self) -> Set<Position> {
        self.solver.room(self.id)
    }

    open spec fn walls(&self) -> Set<Border> {
        self.solver.walls()
    }

    proof fn lemma_terrain(&self) {
        let all = crate::rectangle::Rectangle {
            min_row: 0,
            max_row: self.solver.rows() as i32,
            min_column: 0,
            max_column: self.solver.columns() as i32,
        };
        crate::universe::lemma_rectangle_finite(all);
        assert(self.cells().subset_of(all.cells()));
        lemma_len_subset(self.cells(), all.cells());
    }

    fn steps_from(&self, from: &Position) -> (targets: Vec<Position>) {
        let around = from.adjacent();
        let mut targets: Vec<Position> = Vec::with_capacity(4);
        let mut i: usize = 0;
        while i < around.len()
            invariant
                self.solver.wf(),
                i <= around.len() == 4,
                forall|q: Position| #[trigger] around@.contains(q) <==> from.adjacent_to(q),
                forall|q: Position|
                    #![trigger targets@.contains(q)]
                    targets@.contains(q) <==> around@.subrange(0, i as int).contains(q)
                        && open_move(self.cells(), self.walls(), *from, q),
            decreases around.len() - i,
        {
            let q = around[i];
            proof {
                assert(around@.contains(q));
                lemma_prefix_contains(around@, i as int);
                lemma_push_contains(targets@, q);
            }
            let border = Border::new(*from, q);
            let walled = match self.solver.get_border(&border) {
                Some(wall) => wall,
                None => false,
            };
            if !walled && self.solver.contains(&q) && self.solver.is_possible(&q, self.id) {
                targets.push(q);
            }
            i += 1;
        }
        assert(around@.subrange(0, 4) =~= around@);
        targets
    }
}

impl Solver {
    /// The cells that may belong to the galaxy `id`.
    pub open spec fn room(&self, id: usize) -> Set<Position> {
        Set::new(|q: Position| self.inside(q) && self.possible(q).contains(id))
    }

    /// The borders that are known to be walls.
    pub open spec fn walls(&self) -> Set<Border> {
        Set::new(|b: Border| self.known().contains_key(b) && self.known()[b])
    }

    /// The galaxy `id` can reach the cell `p`: moves lead there from the cells
    /// around its center, through cells that may belong to it and across no
    /// border that is known to be a wall.
    pub open spec fn reaches(&self, id: usize, p: Position) -> bool {
        reachable(
            self.room(id),
            self.walls(),
            footprint_of(self.centers()[id as int].position),
            p,
        )
    }

    /// Rules out, for every cell, the galaxies that cannot reach it. Returns
    /// whether any was ruled out, or the contradiction that a cell is left with
    /// no galaxy.
    pub fn exclude_unreachable_galaxies(&mut self) -> (result: Result<bool, Contradiction>)
        requires
            old(self).wf(),
        ensures
            final(self).narrows(old(self)),
            final(self).wf(),
            final(self).known() == old(self).known(),
            final(self).measure() <= old(self).measure(),
            final(self).keeps_solutions(old(self)),
            match result {
                Ok(changed) => {
                    &&& forall|p: Position, id: usize|
                        #![trigger final(self).possible(p).contains(id)]
                        final(self).inside(p) ==> (final(self).possible(p).contains(id) <==> old(
                            self,
                        ).possible(p).contains(id) && old(self).reaches(id, p))
                    &&& changed ==> final(self).measure() < old(self).measure()
                    &&& !changed ==> final(self).same_as(old(self))
                    &&& old(self).filled() ==> final(self).filled()
                },
                Err(_) => old(self).hopeless() && exists|p: Position|
                    #![trigger old(self).possible(p)]
                    old(self).inside(p) && forall|id: usize|
                        #![trigger old(self).possible(p).contains(id)]
                        old(self).possible(p).contains(id) ==> !old(self).reaches(id, p),
            },
    {
        let ghost before = *self;
        let count: usize = self.galaxy_centers.len();
        let mut changed: bool = false;
        let mut id: usize = 0;
        while id < count
            invariant
                id <= count,
                count == self.centers().len(),
                before == *old(self),
                before.wf(),
                self.wf(),
                self.narrows(&before),
                self.known() == before.known(),
                self.measure() <= before.measure(),
                changed ==> self.measure() < before.measure(),
                !changed ==> self.same_as(&before),
                before.filled() ==> self.filled(),
                forall|p: Position, other: usize|
                    #![trigger self.possible(p).contains(other)]
                    self.inside(p) ==> (self.possible(p).contains(other) <==> before.possible(
                        p,
                    ).contains(other) && (other < id ==> before.reaches(other, p))),
            decreases count - id,
        {
            let center = self.galaxy_centers[id].position;
            let footprint = center.get_center_placement().get_positions(&center);
            proof {
                assert(footprint@.to_set() =~= footprint_of(center));
                assert forall|i: int| 0 <= i < footprint@.len() implies (
                #[trigger] footprint@[i]).in_range() by {
                    assert(footprint@.contains(footprint@[i]));
                    assert(self.centers()[id as int].position.surrounds(footprint@[i]));
                    assert(self.inside(footprint@[i]));
                }
                assert(self.room(id) =~= before.room(id));
                assert(self.walls() =~= before.walls());
            }
            let reached = {
                let spread = Spread { solver: &*self, id };
                distances(&spread, &footprint)
            };
            let ghost start = *self;
            let mut row: usize = 0;
            while row < self.height
                invariant
                    row <= self.height,
                    id < count,
                    count == self.centers().len(),
                    before == *old(self),
                    before.wf(),
                    start.wf(),
                    start.narrows(&before),
                    self.wf(),
                    self.narrows(&before),
                    self.rows() == before.rows(),
                    self.known() == before.known(),
                    self.measure() <= before.measure(),
                    changed ==> self.measure() < before.measure(),
                    !changed ==> self.same_as(&before),
                    before.filled() ==> self.filled(),
                    reached.wf(),
                    forall|q: Position|
                        #![trigger reached@.contains_key(q)]
                        reached@.contains_key(q) <==> before.reaches(id, q),
                    forall|p: Position, other: usize|
                        #![trigger self.possible(p).contains(other)]
                        self.inside(p) ==> (self.possible(p).contains(other) <==> before.possible(
                            p,
                        ).contains(other) && (other < id ==> before.reaches(other, p)) && (other
                            == id && p.row < row ==> before.reaches(other, p))),
                decreases self.height - row,
            {
                let mut column: usize = 0;
                while column < self.width
                    invariant
                        row < self.height,
                        column <= self.width,
                        id < count,
                        count == self.centers().len(),
                        before == *old(self),
                        before.wf(),
                        self.wf(),
                        self.narrows(&before),
                        self.rows() == before.rows(),
                        self.columns() == before.columns(),
                        self.known() == before.known(),
                        self.measure() <= before.measure(),
                        changed ==> self.measure() < before.measure(),
                        !changed ==> self.same_as(&before),
                        before.filled() ==> self.filled(),
                        reached.wf(),
                        forall|q: Position|
                            #![trigger reached@.contains_key(q)]
                            reached@.contains_key(q) <==> before.reaches(id, q),
                        forall|p: Position, other: usize|
                            #![trigger self.possible(p).contains(other)]
                            self.inside(p) ==> (self.possible(p).contains(other)
                                <==> before.possible(p).contains(other) && (other < id
                                ==> before.reaches(other, p)) && (other == id && (p.row < row || (
                            p.row == row && p.column < column)) ==> before.reaches(other, p))),
                    decreases self.width - column,
                {
                    let p = Position::at(row, column);
                    if !reached.contains_key(&p) {
                        let ghost middle = *self;
                        let removed = self.exclude(&p, id);
                        proof {
                            self.lemma_narrows_chain(&middle, &before);
                            self.lemma_measure(&before);
                        }
                        if removed {
                            changed = true;
                        }
                        if self.possible_galaxy_ids[row][column].is_empty() {
                            proof {
                                assert(self.possible(p) == Set::<usize>::empty());
                                assert forall|other: usize|
                                    #![trigger before.possible(p).contains(other)]
                                    before.possible(p).contains(other) implies !before.reaches(
                                    other,
                                    p,
                                ) by {
                                    assert(!self.possible(p).contains(other));
                                    assert(other < count);
                                }
                                assert(before.inside(p));
                                assert forall|a: spec_fn(Position) -> usize|
                                    !#[trigger] before.consistent(a) by {
                                    if before.consistent(a) {
                                        before.lemma_solution_reaches(a, p);
                                        assert(before.possible(p).contains(a(p)));
                                    }
                                }
                                self.lemma_hopeless_keeps(&before);
                            }
                            return Err(Contradiction);
                        }
                        proof {
                            if before.filled() {
                                assert forall|q: Position| self.inside(q) implies #[trigger] self.possible(
                                    q,
                                ) != Set::<usize>::empty() by {
                                    if q != p {
                                        assert(middle.inside(q));
                                        assert(self.possible(q) == middle.possible(q));
                                    }
                                }
                            }
                        }
                    }
                    column += 1;
                }
                row += 1;
            }
            id += 1;
        }
        proof {
            assert forall|p: Position, other: usize|
                #![trigger self.possible(p).contains(other)]
                self.inside(p) implies (self.possible(p).contains(other) <==> before.possible(
                p,
            ).contains(other) && before.reaches(other, p)) by {
                if before.possible(p).contains(other) {
                    assert(before.inside(p));
                    assert(other < count);
                }
            }
            assert forall|a: spec_fn(Position) -> usize, p: Position|
                #![trigger before.consistent(a), self.possible(p)]
                before.consistent(a) && self.inside(p) implies self.possible(p).contains(a(p)) by {
                before.lemma_solution_reaches(a, p);
                assert(before.possible(p).contains(a(p)));
            }
            self.lemma_ruled_out(&before);
        }
        Ok(changed)
    }
}

impl Solver {
    /// The cell `p` can belong to the galaxy `id` as far as its mirror goes: the
    /// mirror of `p` through the center of the galaxy is a cell that may belong
    /// to the galaxy too.
    pub open spec fn mirror_possible(&self, id: usize, p: Position) -> bool {
        let mirror = self.centers()[id as int].position.mirrored(p);
        self.inside(mirror) && self.possible(mirror).contains(id)
    }

    /// Rules out, for every cell, the galaxies to which its mirror cannot
    /// belong: those for which the mirror of the cell through the center lies
    /// outside the grid, or may not belong to the galaxy. Returns whether any was
    /// ruled out, or the contradiction that a cell is left with no galaxy.
    pub fn remove_impossible_galaxy_mirrors(&mut self) -> (result: Result<bool, Contradiction>)
        requires
            old(self).wf(),
        ensures
            final(self).narrows(old(self)),
            final(self).wf(),
            final(self).known() == old(self).known(),
            final(self).measure() <= old(self).measure(),
            final(self).keeps_solutions(old(self)),
            match result {
                Ok(changed) => {
                    &&& forall|p: Position, id: usize|
                        #![trigger final(self).possible(p).contains(id)]
                        final(self).inside(p) ==> (final(self).possible(p).contains(id) <==> old(
                            self,
                        ).possible(p).contains(id) && old(self).mirror_possible(id, p))
                    &&& changed ==> final(self).measure() < old(self).measure()
                    &&& !changed ==> final(self).same_as(old(self))
                    &&& old(self).filled() ==> final(self).filled()
                },
                Err(_) => old(self).hopeless() && exists|p: Position|
                    #![trigger old(self).possible(p)]
                    old(self).inside(p) && forall|id: usize|
                        #![trigger old(self).possible(p).contains(id)]
                        old(self).possible(p).contains(id) ==> !old(self).mirror_possible(id, p),
            },
    {
        let ghost before = *self;
        let mut changed: bool = false;
        let mut row: usize = 0;
        while row < self.height
            invariant
                row <= self.height,
                before == *old(self),
                before.wf(),
                self.wf(),
                self.narrows(&before),
                self.known() == before.known(),
                self.measure() <= before.measure(),
                changed ==> self.measure() < before.measure(),
                !changed ==> self.same_as(&before),
                before.filled() ==> self.filled(),
                forall|q: Position, x: usize|
                    #![trigger self.possible(q).contains(x)]
                    self.inside(q) ==> (self.possible(q).contains(x) <==> before.possible(
                        q,
                    ).contains(x) && (q.row < row ==> before.mirror_possible(x, q))),
            decreases self.height - row,
        {
            let mut column: usize = 0;
            while column < self.width
                invariant
                    row < self.height,
                    column <= self.width,
                    before == *old(self),
                    before.wf(),
                    self.wf(),
                    self.narrows(&before),
                    self.known() == before.known(),
                    self.measure() <= before.measure(),
                    changed ==> self.measure() < before.measure(),
                    !changed ==> self.same_as(&before),
                    before.filled() ==> self.filled(),
                    forall|q: Position, x: usize|
                        #![trigger self.possible(q).contains(x)]
                        self.inside(q) ==> (self.possible(q).contains(x) <==> before.possible(
                            q,
                        ).contains(x) && (q.row < row || (q.row == row && q.column < column)
                            ==> before.mirror_possible(x, q))),
                decreases self.width - column,
            {
                let p = Position::at(row, column);
                let ids = self.get_possible(&p);
                proof {
                    assert(self.possible(p) =~= before.possible(p)) by {
                        assert forall|x: usize|
                            self.possible(p).contains(x) <==> before.possible(p).contains(x) by {}
                    }
                }
                let mut i: usize = 0;
                while i < ids.len()
                    invariant
                        i <= ids.len(),
                        row < self.height,
                        column < self.width,
                        p == (Position { row: row as i32, column: column as i32 }),
                        self.inside(p),
                        ids@.to_set() == before.possible(p),
                        before == *old(self),
                        before.wf(),
                        self.wf(),
                        self.narrows(&before),
                        self.known() == before.known(),
                        self.measure() <= before.measure(),
                        changed ==> self.measure() < before.measure(),
                        !changed ==> self.same_as(&before),
                        before.filled() ==> self.filled(),
                        forall|q: Position, x: usize|
                            #![trigger self.possible(q).contains(x)]
                            self.inside(q) ==> (self.possible(q).contains(x) <==> before.possible(
                                q,
                            ).contains(x) && (q.row < row || (q.row == row && q.column < column)
                                || (q == p && ids@.subrange(0, i as int).contains(x))
                                ==> before.mirror_possible(x, q))),
                    decreases ids.len() - i,
                {
                    let id = ids[i];
                    proof {
                        assert(ids@.to_set().contains(id));
                        assert(before.possible(p).contains(id));
                        before.lemma_center(id as int);
                        lemma_prefix_contains(ids@, i as int);
                    }
                    let center = self.galaxy_centers[id].position;
                    let mirror = center.mirror_position(&p);
                    let keeps = self.contains(&mirror) && self.is_possible(&mirror, id);
                    proof {
                        assert(center.mirrored(mirror) == p);
                        assert(keeps == before.mirror_possible(id, p)) by {
                            if self.inside(mirror) {
                                assert(self.possible(mirror).contains(id) <==> before.possible(
                                    mirror,
                                ).contains(id) && (mirror.row < row || (mirror.row == row
                                    && mirror.column < column) || (mirror == p && ids@.subrange(
                                    0,
                                    i as int,
                                ).contains(id)) ==> before.mirror_possible(id, mirror)));
                                assert(before.mirror_possible(id, mirror));
                            }
                        }
                    }
                    if !keeps {
                        let ghost middle = *self;
                        let removed = self.exclude(&p, id);
                        proof {
                            self.lemma_narrows_chain(&middle, &before);
                        }
                        if removed {
                            changed = true;
                        }
                        if self.possible_galaxy_ids[row][column].is_empty() {
                            proof {
                                assert(self.possible(p) == Set::<usize>::empty());
                                assert forall|x: usize|
                                    #![trigger before.possible(p).contains(x)]
                                    before.possible(p).contains(x) implies !before.mirror_possible(
                                    x,
                                    p,
                                ) by {
                                    assert(!self.possible(p).contains(x));
                                    assert(ids@.to_set().contains(x));
                                    if x != id {
                                        assert(middle.possible(p).contains(x) <==> before.possible(
                                            p,
                                        ).contains(x) && (ids@.subrange(0, i as int).contains(x)
                                            ==> before.mirror_possible(x, p)));
                                        assert(!middle.possible(p).contains(x));
                                    }
                                }
                                assert(before.inside(p));
                                assert forall|a: spec_fn(Position) -> usize|
                                    !#[trigger] before.consistent(a) by {
                                    if before.consistent(a) {
                                        before.lemma_solution_mirrors(a, p);
                                        assert(before.possible(p).contains(a(p)));
                                    }
                                }
                                self.lemma_hopeless_keeps(&before);
                            }
                            return Err(Contradiction);
                        }
                        proof {
                            if before.filled() {
                                assert forall|q: Position| self.inside(q) implies #[trigger] self.possible(
                                    q,
                                ) != Set::<usize>::empty() by {
                                    if q != p {
                                        assert(middle.inside(q));
                                        assert(self.possible(q) == middle.possible(q));
                                    }
                                }
                            }
                        }
                    }
                    i += 1;
                }
                proof {
                    assert(ids@.subrange(0, ids@.len() as int) =~= ids@);
                    assert forall|q: Position, x: usize|
                        #![trigger self.possible(q).contains(x)]
                        self.inside(q) implies (self.possible(q).contains(x) <==> before.possible(
                        q,
                    ).contains(x) && (q.row < row || (q.row == row && q.column < column + 1)
                        ==> before.mirror_possible(x, q))) by {
                        if q == p {
                            assert(ids@.to_set().contains(x) <==> ids@.contains(x));
                        }
                    }
                }
                column += 1;
            }
            row += 1;
        }
        proof {
            assert forall|a: spec_fn(Position) -> usize, p: Position|
                #![trigger before.consistent(a), self.possible(p)]
                before.consistent(a) && self.inside(p) implies self.possible(p).contains(a(p)) by {
                before.lemma_solution_mirrors(a, p);
                assert(before.possible(p).contains(a(p)));
            }
            self.lemma_ruled_out(&before);
        }
        Ok(changed)
    }
}

impl Solver {
    /// The cells that the assignment `a` gives to the galaxy `id`.
    pub open spec fn galaxy_of(&self, a: spec_fn(Position) -> usize, id: usize) -> Set<Position> {
        Set::new(|q: Position| self.inside(q) && a(q) == id)
    }

    /// Under the assignment `a`, a wall stands at the border `b`: its two
    /// positions are not cells of one galaxy.
    pub open spec fn stands(&self, a: spec_fn(Position) -> usize, b: Border) -> bool {
        !(self.inside(b.first()) && self.inside(b.second()) && a(b.first()) == a(b.second()))
    }

    /// The assignment `a` of a galaxy to every cell solves the puzzle: every cell
    /// belongs to a galaxy that there is; the cells around each center belong to
    /// its galaxy; with every cell its mirror through the center belongs to the
    /// galaxy; and every cell of a galaxy is reached from the cells around its
    /// center by moves within the galaxy.
    pub open spec fn solved_by(&self, a: spec_fn(Position) -> usize) -> bool {
        &&& forall|p: Position| self.inside(p) ==> #[trigger] a(p) < self.centers().len()
        &&& forall|k: int, p: Position|
            0 <= k < self.centers().len() && #[trigger] self.centers()[k].position.surrounds(p)
                ==> a(p) == k
        &&& forall|p: Position|
            self.inside(p) ==> self.inside(
                #[trigger] self.centers()[a(p) as int].position.mirrored(p),
            ) && a(self.centers()[a(p) as int].position.mirrored(p)) == a(p)
        &&& forall|p: Position|
            self.inside(p) ==> #[trigger] reachable(
                self.galaxy_of(a, a(p)),
                Set::empty(),
                footprint_of(self.centers()[a(p) as int].position),
                p,
            )
    }

    /// What the solver knows is true of the solution `a`: every cell may belong
    /// to the galaxy that `a` gives it, and every border of a cell that is known
    /// is known to be what it is under `a`.
    pub open spec fn consistent(&self, a: spec_fn(Position) -> usize) -> bool {
        &&& self.solved_by(a)
        &&& forall|p: Position| self.inside(p) ==> #[trigger] self.possible(p).contains(a(p))
        &&& forall|b: Border|
            #[trigger] self.known().contains_key(b) && b.well_formed() && (self.inside(b.first())
                || self.inside(b.second())) ==> self.known()[b] == self.stands(a, b)
    }

    /// What the solver knows is true of whatever solution it was true of in
    /// `before`.
    pub open spec fn keeps_solutions(&self, before: &Solver) -> bool {
        forall|a: spec_fn(Position) -> usize|
            #[trigger] before.consistent(a) ==> self.consistent(a)
    }

    /// What the solver knows is true of no solution.
    pub open spec fn hopeless(&self) -> bool {
        forall|a: spec_fn(Position) -> usize| !#[trigger] self.consistent(a)
    }

    /// The centers are held in ascending order, each once, and there are no more
    /// of them than can be counted.
    pub closed spec fn centers_listed(&self) -> bool {
        ascending(self.galaxy_centers@) && self.galaxy_centers@.len() <= usize::MAX
    }

    /// There are no more centers than can be counted.
    pub proof fn lemma_centers_counted(&self)
        requires
            self.centers_listed(),
        ensures
            self.centers().len() <= usize::MAX,
    {
    }

    /// Two centers at different indices differ.
    pub proof fn lemma_centers_differ(&self, i: int, j: int)
        requires
            self.centers_listed(),
            0 <= i < self.centers().len(),
            0 <= j < self.centers().len(),
            self.centers()[i] == self.centers()[j],
        ensures
            i == j,
    {
        crate::ordered::lemma_ascending_distinct(self.galaxy_centers@);
    }

    /// A cell that is known to belong to a galaxy belongs to it in every solution
    /// that what is known is true of.
    pub proof fn lemma_certain(&self, a: spec_fn(Position) -> usize, p: Position, id: usize)
        requires
            self.consistent(a),
            self.certain(p, id),
        ensures
            a(p) == id,
    {
        assert(self.possible(p).contains(a(p)));
    }

    /// Where the borders between cells of known galaxies clash with what is
    /// known, that is true of no solution.
    pub proof fn lemma_clash_hopeless(&self)
        requires
            self.wf(),
            self.known_galaxies_clash(),
        ensures
            self.hopeless(),
    {
        assert forall|a: spec_fn(Position) -> usize| !#[trigger] self.consistent(a) by {
            if self.consistent(a) {
                let (p, q, i, j) = choose|p: Position, q: Position, i: usize, j: usize|
                    #![trigger self.certain(p, i), self.certain(q, j)]
                    self.certain(p, i) && self.certain(q, j) && p.adjacent_to(q)
                        && self.known().contains_key(Border::between(p, q))
                        && self.known()[Border::between(p, q)] == (i == j);
                self.lemma_certain(a, p, i);
                self.lemma_certain(a, q, j);
                let b = Border::between(p, q);
                Border::lemma_of(p, q);
                Border::lemma_of(q, p);
                b.lemma_well_formed();
                assert(self.known()[b] == self.stands(a, b));
            }
        }
    }

    /// Under a solution, the border of a cell and its mirror through the center
    /// of the galaxy of the cell are walls or not together; and the mirror is a
    /// border of a cell.
    pub proof fn lemma_mirror_stands(
        &self,
        a: spec_fn(Position) -> usize,
        p: Position,
        b: Border,
    )
        requires
            self.wf(),
            self.solved_by(a),
            self.inside(p),
            touches(b, p),
        ensures
            self.stands(a, mirror_border(self.centers()[a(p) as int].position, b)) == self.stands(
                a,
                b,
            ),
            mirror_border(self.centers()[a(p) as int].position, b).well_formed(),
            self.inside(mirror_border(self.centers()[a(p) as int].position, b).first())
                || self.inside(mirror_border(self.centers()[a(p) as int].position, b).second()),
    {
        let id = a(p);
        let c = self.centers()[id as int].position;
        self.lemma_center(id as int);
        b.lemma_well_formed();
        let n = if b.first() == p {
            b.second()
        } else {
            b.first()
        };
        let m = c.mirrored(p);
        let mn = c.mirrored(n);
        let mirror = mirror_border(c, b);
        Border::lemma_of(c.mirrored(b.second()), c.mirrored(b.first()));
        mirror.lemma_well_formed();
        assert(self.inside(m) && a(m) == id);
        assert(c.mirrored(mn) == n);
        assert(c.mirrored(m) == p);
        if self.inside(n) && a(n) == id {
            assert(self.inside(self.centers()[a(n) as int].position.mirrored(n)));
        }
        if self.inside(mn) && a(mn) == id {
            assert(self.inside(self.centers()[a(mn) as int].position.mirrored(mn)));
        }
    }

    /// In a solution, every cell can be reached by its galaxy.
    pub proof fn lemma_solution_reaches(&self, a: spec_fn(Position) -> usize, p: Position)
        requires
            self.wf(),
            self.consistent(a),
            self.inside(p),
        ensures
            self.reaches(a(p), p),
    {
        let id = a(p);
        let cells = self.galaxy_of(a, id);
        let none = Set::<Border>::empty();
        let seeds = footprint_of(self.centers()[id as int].position);
        assert(reachable(cells, none, seeds, p));
        let n = choose|n: nat| within(cells, none, seeds, n).contains(p);
        assert(cells.subset_of(self.room(id))) by {
            assert forall|q: Position| cells.contains(q) implies self.room(id).contains(q) by {
                assert(self.possible(q).contains(a(q)));
            }
        }
        assert forall|x: Position, y: Position|
            (seeds.contains(x) || cells.contains(x)) && #[trigger] open_move(
                cells,
                none,
                x,
                y,
            ) implies !self.walls().contains(Border::between(x, y)) by {
            if seeds.contains(x) {
                assert(self.centers()[id as int].position.surrounds(x));
                assert(self.inside(x));
                assert(a(x) == id);
            }
            let b = Border::between(x, y);
            Border::lemma_of(x, y);
            Border::lemma_of(y, x);
            b.lemma_well_formed();
            if self.known().contains_key(b) {
                assert(self.known()[b] == self.stands(a, b));
            }
        }
        lemma_within_transfer(cells, none, self.room(id), self.walls(), seeds, n);
        assert(within(self.room(id), self.walls(), seeds, n).contains(p));
    }

    /// In a solution, the mirror of every cell may belong to the galaxy of the
    /// cell.
    pub proof fn lemma_solution_mirrors(&self, a: spec_fn(Position) -> usize, p: Position)
        requires
            self.wf(),
            self.consistent(a),
            self.inside(p),
        ensures
            self.mirror_possible(a(p), p),
    {
        let m = self.centers()[a(p) as int].position.mirrored(p);
        assert(self.inside(m) && a(m) == a(p));
        assert(self.possible(m).contains(a(m)));
    }

    /// Whether an assignment solves the puzzle depends on the grid and the
    /// centers alone.
    pub proof fn lemma_solved_same(&self, before: &Solver, a: spec_fn(Position) -> usize)
        requires
            self.rows() == before.rows(),
            self.columns() == before.columns(),
            self.centers() == before.centers(),
        ensures
            self.solved_by(a) == before.solved_by(a),
            forall|b: Border| self.stands(a, b) == before.stands(a, b),
    {
        assert forall|id: usize| #[trigger] self.galaxy_of(a, id) == before.galaxy_of(a, id) by {
            assert(self.galaxy_of(a, id) =~= before.galaxy_of(a, id));
        }
        if before.solved_by(a) {
            assert forall|p: Position| self.inside(p) implies #[trigger] reachable(
                self.galaxy_of(a, a(p)),
                Set::empty(),
                footprint_of(self.centers()[a(p) as int].position),
                p,
            ) by {
                assert(before.inside(p));
                assert(self.galaxy_of(a, a(p)) == before.galaxy_of(a, a(p)));
                assert(reachable(
                    before.galaxy_of(a, a(p)),
                    Set::empty(),
                    footprint_of(before.centers()[a(p) as int].position),
                    p,
                ));
            }
        }
        if self.solved_by(a) {
            assert forall|p: Position| before.inside(p) implies #[trigger] reachable(
                before.galaxy_of(a, a(p)),
                Set::empty(),
                footprint_of(before.centers()[a(p) as int].position),
                p,
            ) by {
                assert(self.inside(p));
                assert(self.galaxy_of(a, a(p)) == before.galaxy_of(a, a(p)));
                assert(reachable(
                    self.galaxy_of(a, a(p)),
                    Set::empty(),
                    footprint_of(self.centers()[a(p) as int].position),
                    p,
                ));
            }
        }
    }

    /// Keeping the solutions is transitive.
    pub proof fn lemma_keeps_chain(&self, middle: &Solver, before: &Solver)
        requires
            self.keeps_solutions(middle),
            middle.keeps_solutions(before),
        ensures
            self.keeps_solutions(before),
    {
        assert forall|a: spec_fn(Position) -> usize| #[trigger]
            before.consistent(a) implies self.consistent(a) by {
            assert(middle.consistent(a));
        }
    }

    /// What is true of no solution is true of none, whatever else becomes known.
    pub proof fn lemma_hopeless_keeps(&self, before: &Solver)
        requires
            before.hopeless(),
        ensures
            self.keeps_solutions(before),
    {
    }

    /// Taking note of a border as it is in every solution keeps the solutions.
    pub proof fn lemma_learned(&self, before: &Solver, border: Border, wall: bool)
        requires
            before.wf(),
            self.narrows(before),
            self.known() == before.known().insert(border, wall),
            forall|p: Position|
                self.inside(p) ==> #[trigger] self.possible(p) == before.possible(p),
            forall|a: spec_fn(Position) -> usize|
                #[trigger] before.consistent(a) ==> wall == before.stands(a, border),
        ensures
            self.keeps_solutions(before),
    {
        assert forall|a: spec_fn(Position) -> usize| #[trigger]
            before.consistent(a) implies self.consistent(a) by {
            self.lemma_solved_same(before, a);
            assert forall|p: Position| self.inside(p) implies #[trigger] self.possible(p).contains(
                a(p),
            ) by {
                assert(before.possible(p).contains(a(p)));
            }
            assert forall|b: Border|
                #[trigger] self.known().contains_key(b) && b.well_formed() && (self.inside(
                    b.first(),
                ) || self.inside(b.second())) implies self.known()[b] == self.stands(a, b) by {
                if b != border {
                    assert(before.known().contains_key(b));
                }
            }
        }
    }

    /// Ruling out galaxies that no solution gives a cell keeps the solutions.
    pub proof fn lemma_ruled_out(&self, before: &Solver)
        requires
            before.wf(),
            self.narrows(before),
            self.known() == before.known(),
            forall|a: spec_fn(Position) -> usize, p: Position|
                #![trigger before.consistent(a), self.possible(p)]
                before.consistent(a) && self.inside(p) ==> self.possible(p).contains(a(p)),
        ensures
            self.keeps_solutions(before),
    {
        assert forall|a: spec_fn(Position) -> usize| #[trigger]
            before.consistent(a) implies self.consistent(a) by {
            self.lemma_solved_same(before, a);
            assert forall|p: Position| self.inside(p) implies #[trigger] self.possible(p).contains(
                a(p),
            ) by {
                assert(before.consistent(a) && self.inside(p));
            }
        }
    }
}

impl Solver {
    /// Nothing more follows from what is known: the borders between cells of
    /// known galaxies are known; known borders of cells of known galaxies have
    /// known mirrors; and every galaxy that a cell may belong to can reach the
    /// cell, and may hold its mirror.
    pub open spec fn settled(&self) -> bool {
        &&& self.known_galaxies_parted()
        &&& self.borders_mirrored()
        &&& forall|p: Position, id: usize|
            #![trigger self.possible(p).contains(id)]
            self.inside(p) && self.possible(p).contains(id) ==> self.reaches(id, p)
                && self.mirror_possible(id, p)
    }

    /// Every cell may belong to some galaxy.
    pub open spec fn filled(&self) -> bool {
        forall|p: Position| self.inside(p) ==> #[trigger] self.possible(p) != Set::<usize>::empty()
    }

    /// A galaxy that the cell `p` may belong to.
    pub open spec fn choice_at(&self, p: Position) -> usize {
        choose|id: usize| self.possible(p).contains(id)
    }

    /// The assignment that gives every cell a galaxy that it may belong to.
    pub open spec fn choice(&self) -> spec_fn(Position) -> usize {
        |p: Position| self.choice_at(p)
    }

    /// The galaxy of every cell is known.
    pub open spec fn decided(&self) -> bool {
        forall|p: Position| self.inside(p) ==> #[trigger] self.possible(p) == set![self.choice_at(p)]
    }

    /// Some solution of which what is known is true gives the cell `p` to the
    /// galaxy `id`.
    pub open spec fn can_be(&self, p: Position, id: usize) -> bool {
        exists|a: spec_fn(Position) -> usize| #[trigger] self.consistent(a) && a(p) == id
    }

    /// Whatever galaxy a cell with several to choose from may belong to, it
    /// does belong to in some solution of which what is known is true.
    pub open spec fn choices_stand(&self) -> bool {
        forall|p: Position, id: usize|
            #![trigger self.possible(p).contains(id)]
            self.inside(p) && self.possible(p).contains(id) && self.possible(p).len() >= 2
                ==> self.can_be(p, id)
    }

    /// What is known is true of some solution.
    pub open spec fn solvable(&self) -> bool {
        exists|a: spec_fn(Position) -> usize| #[trigger] self.consistent(a)
    }

    /// Every cell may belong to some galaxy, and the cells around a center to
    /// the galaxy of the center alone.
    pub open spec fn ready(&self) -> bool {
        self.filled() && self.anchored()
    }

    /// What is known is true of a solution of which more is known to be true.
    pub proof fn lemma_consistent_back(&self, before: &Solver, a: spec_fn(Position) -> usize)
        requires
            self.narrows(before),
            self.consistent(a),
        ensures
            before.consistent(a),
    {
        self.lemma_solved_same(before, a);
        assert forall|p: Position| before.inside(p) implies #[trigger] before.possible(p).contains(
            a(p),
        ) by {
            assert(self.inside(p));
            assert(self.possible(p).subset_of(before.possible(p)));
            assert(self.possible(p).contains(a(p)));
        }
        assert forall|b: Border|
            #[trigger] before.known().contains_key(b) && b.well_formed() && (before.inside(
                b.first(),
            ) || before.inside(b.second())) implies before.known()[b] == before.stands(a, b) by {
            assert(self.known().contains_key(b));
            assert(self.known()[b] == self.stands(a, b));
        }
    }

    /// A solver that knows more stays ready where no cell is left without a
    /// galaxy.
    pub proof fn lemma_ready(&self, before: &Solver)
        requires
            self.narrows(before),
            before.wf(),
            before.ready(),
            self.filled() || forall|p: Position|
                self.inside(p) ==> #[trigger] self.possible(p) == before.possible(p),
        ensures
            self.ready(),
    {
        self.lemma_narrows_anchored(before);
        assert forall|p: Position| self.inside(p) implies #[trigger] self.possible(p)
            != Set::<usize>::empty() by {
            assert(before.inside(p));
            assert(before.possible(p) != Set::<usize>::empty());
        }
    }

    /// Where nothing more follows from what is known, no cell is left without
    /// a galaxy and every choice that is left stands, the puzzle has a solution
    /// of which what is known is true.
    pub proof fn lemma_solvable(&self)
        requires
            self.wf(),
            self.ready(),
            self.settled(),
            self.choices_stand(),
        ensures
            self.solvable(),
    {
        if self.decided() {
            self.lemma_decided();
            assert(self.consistent(self.choice()));
        } else {
            let p = choose|p: Position|
                self.inside(p) && #[trigger] self.possible(p) != set![self.choice_at(p)];
            let id = self.choice_at(p);
            self.lemma_possible(p);
            assert(self.possible(p) != Set::<usize>::empty());
            assert(exists|x: usize| self.possible(p).contains(x)) by {
                if forall|x: usize| !self.possible(p).contains(x) {
                    assert(self.possible(p) =~= Set::<usize>::empty());
                }
            }
            assert(self.possible(p).contains(id));
            assert(exists|x: usize| self.possible(p).contains(x) && x != id) by {
                if forall|x: usize| self.possible(p).contains(x) ==> x == id {
                    assert(self.possible(p) =~= set![id]);
                }
            }
            let other = choose|x: usize| self.possible(p).contains(x) && x != id;
            assert(self.possible(p).remove(id).contains(other));
            assert(self.possible(p).remove(id).len() >= 1) by {
                if self.possible(p).remove(id).len() == 0 {
                    assert(self.possible(p).remove(id).is_empty());
                }
            }
            assert(self.possible(p).len() >= 2);
            assert(self.can_be(p, id));
        }
    }

    /// The galaxy of every cell is known, and is the one that `a` gives it.
    pub open spec fn told(&self, a: spec_fn(Position) -> usize) -> bool {
        forall|p: Position| self.inside(p) ==> #[trigger] self.possible(p) == set![a(p)]
    }

    /// The galaxy that `a` gives the cell `p` can reach it, and may hold its
    /// mirror.
    pub open spec fn suits(&self, a: spec_fn(Position) -> usize, p: Position) -> bool {
        self.reaches(a(p), p) && self.mirror_possible(a(p), p)
    }

    /// Where the galaxy of every cell is known and can reach it, the cell is
    /// reached within the galaxy.
    proof fn lemma_told_reach(&self, a: spec_fn(Position) -> usize, p: Position)
        requires
            self.told(a),
            self.inside(p),
            self.reaches(a(p), p),
        ensures
            reachable(
                self.galaxy_of(a, a(p)),
                Set::empty(),
                footprint_of(self.centers()[a(p) as int].position),
                p,
            ),
    {
        let id = a(p);
        let seeds = footprint_of(self.centers()[id as int].position);
        assert(self.room(id) =~= self.galaxy_of(a, id)) by {
            assert forall|q: Position| self.room(id).contains(q) <==> self.galaxy_of(
                a,
                id,
            ).contains(q) by {
                if self.inside(q) {
                    assert(self.possible(q) == set![a(q)]);
                }
            }
        }
        let n = choose|n: nat| within(self.room(id), self.walls(), seeds, n).contains(p);
        lemma_within_transfer(
            self.room(id),
            self.walls(),
            self.galaxy_of(a, id),
            Set::empty(),
            seeds,
            n,
        );
        assert(within(self.galaxy_of(a, id), Set::empty(), seeds, n).contains(p));
    }

    /// Where the galaxy of every cell is known and the borders between cells
    /// are known rightly, a known border in or around the grid is what it is
    /// under these galaxies.
    proof fn lemma_told_border(&self, a: spec_fn(Position) -> usize, b: Border)
        requires
            self.wf(),
            self.told(a),
            self.known_galaxies_parted(),
            self.known().contains_key(b),
            b.well_formed(),
            self.inside(b.first()) || self.inside(b.second()),
        ensures
            self.known()[b] == self.stands(a, b),
    {
        let p = b.first();
        let q = b.second();
        b.lemma_well_formed();
        if self.inside(p) && self.inside(q) {
            assert(self.possible(p) == set![a(p)]);
            assert(self.possible(q) == set![a(q)]);
            assert(self.certain(p, a(p)) && self.certain(q, a(q)));
            assert(self.agreed(p, q, a(p), a(q)));
            Border::lemma_of(p, q);
            Border::lemma_same(b, Border::between(p, q));
        } else {
            assert(self.on_frame(b));
        }
    }

    /// Where the galaxy of every cell is known, these galaxies can reach their
    /// cells and may hold their mirrors, and the borders between cells are
    /// known rightly, the galaxies solve the puzzle, and what is known is true
    /// of them.
    proof fn lemma_told(&self, a: spec_fn(Position) -> usize)
        requires
            self.wf(),
            self.anchored(),
            self.told(a),
            self.known_galaxies_parted(),
            forall|p: Position| self.inside(p) ==> #[trigger] self.suits(a, p),
        ensures
            self.consistent(a),
    {
        assert forall|p: Position| self.inside(p) implies #[trigger] self.possible(p).contains(
            a(p),
        ) by {
            assert(self.possible(p) == set![a(p)]);
        }
        assert forall|p: Position| self.inside(p) implies #[trigger] a(p) < self.centers().len() by {
            assert(self.possible(p).contains(a(p)));
        }
        assert forall|k: int, p: Position|
            0 <= k < self.centers().len() && #[trigger] self.centers()[k].position.surrounds(
                p,
            ) implies a(p) == k by {
            assert(self.inside(p));
            assert(self.possible(p).contains(a(p)));
        }
        assert forall|p: Position| self.inside(p) implies self.inside(
            #[trigger] self.centers()[a(p) as int].position.mirrored(p),
        ) && a(self.centers()[a(p) as int].position.mirrored(p)) == a(p) by {
            let m = self.centers()[a(p) as int].position.mirrored(p);
            assert(self.suits(a, p));
            assert(self.inside(m));
            assert(self.possible(m) == set![a(m)]);
        }
        assert forall|p: Position| self.inside(p) implies #[trigger] reachable(
            self.galaxy_of(a, a(p)),
            Set::empty(),
            footprint_of(self.centers()[a(p) as int].position),
            p,
        ) by {
            assert(self.suits(a, p));
            self.lemma_told_reach(a, p);
        }
        assert(self.solved_by(a));
        assert forall|b: Border|
            #[trigger] self.known().contains_key(b) && b.well_formed() && (self.inside(b.first())
                || self.inside(b.second())) implies self.known()[b] == self.stands(a, b) by {
            self.lemma_told_border(a, b);
        }
    }

    /// Where nothing more follows from what is known and the galaxy of every
    /// cell is known, these galaxies solve the puzzle, and what is known is true
    /// of them.
    pub proof fn lemma_decided(&self)
        requires
            self.wf(),
            self.anchored(),
            self.settled(),
            self.decided(),
        ensures
            self.consistent(self.choice()),
    {
        let a = self.choice();
        assert forall|p: Position| self.inside(p) implies #[trigger] self.possible(p) == set![
            a(p),
        ] by {
            assert(self.possible(p) == set![self.choice_at(p)]);
        }
        assert forall|p: Position| self.inside(p) implies #[trigger] self.suits(a, p) by {
            assert(self.possible(p) == set![a(p)]);
            assert(self.possible(p).contains(a(p)));
        }
        self.lemma_told(a);
    }

    /// A solver that knows just what another knows has as much left to find out,
    /// and what it knows is true of the same solutions.
    pub proof fn lemma_same(&self, other: &Solver)
        requires
            self.same_as(other),
            other.shaped(),
            self.rows() <= COORDINATE_LIMIT,
            self.columns() <= COORDINATE_LIMIT,
        ensures
            other.same_as(self),
            self.measure() == other.measure(),
            self.keeps_solutions(other),
            other.keeps_solutions(self),
            self.wf() == other.wf(),
            forall|id: usize| #[trigger] self.room(id) == other.room(id),
            self.walls() == other.walls(),
            forall|p: Position, id: usize| self.certain(p, id) == other.certain(p, id),
    {
        assert(other.same_as(self)) by {
            assert forall|p: Position| other.inside(p) implies (#[trigger] other.possible(
                p,
            )).subset_of(self.possible(p)) by {
                assert(self.possible(p) == other.possible(p));
            }
        }
        self.lemma_measure(other);
        other.lemma_measure(self);
        assert forall|a: spec_fn(Position) -> usize, p: Position|
            #![trigger other.consistent(a), self.possible(p)]
            other.consistent(a) && self.inside(p) implies self.possible(p).contains(a(p)) by {
            assert(other.possible(p).contains(a(p)));
        }
        assert forall|a: spec_fn(Position) -> usize, p: Position|
            #![trigger self.consistent(a), other.possible(p)]
            self.consistent(a) && other.inside(p) implies other.possible(p).contains(a(p)) by {
            assert(self.possible(p).contains(a(p)));
        }
        if other.wf() {
            self.lemma_narrows_wf(other);
            self.lemma_ruled_out(other);
        }
        if self.wf() {
            other.lemma_narrows_wf(self);
            other.lemma_ruled_out(self);
        }
        if !other.wf() {
            assert(self.keeps_solutions(other)) by {
                assert forall|a: spec_fn(Position) -> usize| #[trigger]
                    other.consistent(a) implies self.consistent(a) by {
                    self.lemma_solved_same(other, a);
                    assert forall|p: Position| self.inside(p) implies #[trigger] self.possible(
                        p,
                    ).contains(a(p)) by {
                        assert(other.possible(p).contains(a(p)));
                    }
                }
            }
            assert(other.keeps_solutions(self)) by {
                assert forall|a: spec_fn(Position) -> usize| #[trigger]
                    self.consistent(a) implies other.consistent(a) by {
                    other.lemma_solved_same(self, a);
                    assert forall|p: Position| other.inside(p) implies #[trigger] other.possible(
                        p,
                    ).contains(a(p)) by {
                        assert(self.possible(p).contains(a(p)));
                    }
                }
            }
        }
        assert forall|id: usize| #[trigger] self.room(id) == other.room(id) by {
            assert(self.room(id) =~= other.room(id));
        }
        assert(self.walls() =~= other.walls());
    }

    /// A copy of this solver.
    pub fn copy(&self) -> (solver: Solver)
        requires
            self.wf(),
        ensures
            solver.same_as(self),
            solver.wf(),
            solver.measure() == self.measure(),
            solver.keeps_solutions(self),
            self.keeps_solutions(&solver),
    {
        let mut possible_galaxy_ids: Vec<Vec<SortedSet<usize>>> = Vec::new();
        let mut row: usize = 0;
        while row < self.height
            invariant
                self.shaped(),
                row <= self.height,
                possible_galaxy_ids@.len() == row,
                forall|r: int|
                    0 <= r < row ==> (#[trigger] possible_galaxy_ids@[r])@.len() == self.width,
                forall|r: int, c: int|
                    0 <= r < row && 0 <= c < self.width ==> (
                    #[trigger] possible_galaxy_ids@[r]@[c]).wf() && possible_galaxy_ids@[r]@[c]@
                        == self.possible_galaxy_ids@[r]@[c]@,
            decreases self.height - row,
        {
            let mut line: Vec<SortedSet<usize>> = Vec::new();
            let mut column: usize = 0;
            while column < self.width
                invariant
                    self.shaped(),
                    row < self.height,
                    column <= self.width,
                    line@.len() == column,
                    forall|c: int|
                        0 <= c < column ==> (#[trigger] line@[c]).wf() && line@[c]@
                            == self.possible_galaxy_ids@[row as int]@[c]@,
                decreases self.width - column,
            {
                assert(self.possible_galaxy_ids@[row as int]@[column as int].wf());
                line.push(self.possible_galaxy_ids[row][column].copy());
                column += 1;
            }
            possible_galaxy_ids.push(line);
            row += 1;
        }
        let solver = Solver {
            width: self.width,
            height: self.height,
            galaxy_centers: crate::ordered::copy_vec(&self.galaxy_centers),
            borders: self.borders.copy(),
            possible_galaxy_ids,
        };
        proof {
            assert(solver.shaped());
            assert forall|p: Position| solver.inside(p) implies #[trigger] solver.possible(p)
                == self.possible(p) by {}
            assert(solver.same_as(self));
            solver.lemma_same(self);
        }
        solver
    }

    /// The cells that may belong to more than one galaxy, row by row, each
    /// behind the number of galaxies that it may belong to.
    fn open_cells(&self) -> (cells: Vec<(usize, Position)>)
        requires
            self.wf(),
        ensures
            forall|k: int|
                0 <= k < cells@.len() ==> self.inside((#[trigger] cells@[k]).1) && self.possible(
                    cells@[k].1,
                ).len() >= 2,
            forall|p: Position|
                self.inside(p) && (#[trigger] self.possible(p)).len() >= 2 ==> cells@.contains(
                    (self.possible(p).len() as usize, p),
                ),
    {
        let mut cells: Vec<(usize, Position)> = Vec::new();
        let mut row: usize = 0;
        while row < self.height
            invariant
                self.wf(),
                row <= self.height,
                forall|k: int|
                    0 <= k < cells@.len() ==> self.inside((#[trigger] cells@[k]).1)
                        && self.possible(cells@[k].1).len() >= 2,
                forall|p: Position|
                    self.inside(p) && p.row < row && (#[trigger] self.possible(p)).len() >= 2
                        ==> cells@.contains((self.possible(p).len() as usize, p)),
            decreases self.height - row,
        {
            let mut column: usize = 0;
            while column < self.width
                invariant
                    self.wf(),
                    row < self.height,
                    column <= self.width,
                    forall|k: int|
                        0 <= k < cells@.len() ==> self.inside((#[trigger] cells@[k]).1)
                            && self.possible(cells@[k].1).len() >= 2,
                    forall|p: Position|
                        self.inside(p) && (p.row < row || (p.row == row && p.column < column)) && (
                        #[trigger] self.possible(p)).len() >= 2 ==> cells@.contains(
                            (self.possible(p).len() as usize, p),
                        ),
                decreases self.width - column,
            {
                let p = Position::at(row, column);
                let set = &self.possible_galaxy_ids[row][column];
                proof {
                    set.lemma_size();
                }
                let count = set.len();
                let ghost before = cells@;
                if count > 1 {
                    cells.push((count, p));
                }
                proof {
                    assert forall|q: Position|
                        self.inside(q) && (q.row < row || (q.row == row && q.column < column + 1))
                            && (#[trigger] self.possible(q)).len() >= 2 implies cells@.contains(
                        (self.possible(q).len() as usize, q),
                    ) by {
                        let item = (self.possible(q).len() as usize, q);
                        if q == p {
                            assert(cells@ == before.push(item));
                            assert(cells@[before.len() as int] == item);
                        } else {
                            assert(before.contains(item));
                            let k = choose|k: int| 0 <= k < before.len() && before[k] == item;
                            assert(cells@[k] == item);
                        }
                    }
                }
                column += 1;
            }
            row += 1;
        }
        cells
    }

    /// Tries, for the cells that may belong to more than one galaxy, what
    /// follows if the cell belongs to one of them: cells with fewer galaxies come
    /// first, then cells further up and left, and for each cell the galaxies in
    /// ascending order. The first galaxy that leads to a contradiction is ruled
    /// out for its cell. Returns whether one was ruled out.
    pub fn assume_galaxy(&mut self) -> (result: Result<bool, Contradiction>)
        requires
            old(self).wf(),
        ensures
            final(self).narrows(old(self)),
            final(self).wf(),
            final(self).known() == old(self).known(),
            final(self).measure() <= old(self).measure(),
            final(self).keeps_solutions(old(self)),
            match result {
                Ok(changed) => {
                    &&& changed ==> final(self).measure() < old(self).measure() && exists|
                        p: Position,
                        id: usize,
                    |
                        #![trigger old(self).possible(p).contains(id)]
                        old(self).inside(p) && old(self).possible(p).len() >= 2 && old(
                            self,
                        ).possible(p).contains(id) && final(self).possible(p) == old(
                            self,
                        ).possible(p).remove(id) && forall|q: Position|
                            final(self).inside(q) && q != p ==> #[trigger] final(self).possible(q)
                                == old(self).possible(q)
                    &&& !changed ==> final(self).same_as(old(self))
                    &&& old(self).ready() ==> final(self).ready()
                    &&& !changed && old(self).ready() ==> final(self).choices_stand()
                },
                Err(_) => false,
            },
        decreases old(self).measure(), 0nat,
    {
        let cells = self.open_cells();
        let ghost listed = cells@;
        let sorted = sorted_by_number(cells);
        proof {
            sorted@.to_multiset_ensures();
            listed.to_multiset_ensures();
            assert forall|x: (usize, Position)| #[trigger] sorted@.contains(x) <==> listed.contains(
                x,
            ) by {
                if sorted@.contains(x) {
                    assert(sorted@.to_multiset().count(x) > 0);
                    assert(listed.to_multiset().count(x) > 0);
                }
                if listed.contains(x) {
                    assert(listed.to_multiset().count(x) > 0);
                    assert(sorted@.to_multiset().count(x) > 0);
                }
            }
            assert(self.keeps_solutions(old(self)));
            assert(self.same_as(old(self)));
        }
        let mut k: usize = 0;
        while k < sorted.len()
            invariant
                k <= sorted.len(),
                *self == *old(self),
                self.wf(),
                forall|m: int|
                    0 <= m < listed.len() ==> self.inside((#[trigger] listed[m]).1)
                        && self.possible(listed[m].1).len() >= 2,
                forall|x: (usize, Position)| #[trigger] sorted@.contains(x) <==> listed.contains(x),
                self.ready() ==> forall|m: int, id: usize|
                    #![trigger self.possible(sorted@[m].1).contains(id)]
                    0 <= m < k && self.possible(sorted@[m].1).contains(id) ==> self.can_be(
                        sorted@[m].1,
                        id,
                    ),
            decreases sorted.len() - k,
        {
            let position = sorted[k].1;
            proof {
                assert(sorted@.contains(sorted@[k as int]));
                assert(listed.contains(sorted@[k as int]));
                let m = choose|m: int| 0 <= m < listed.len() && listed[m] == sorted@[k as int];
                assert(self.inside(listed[m].1));
            }
            let ids = self.get_possible(&position);
            let mut i: usize = 0;
            while i < ids.len()
                invariant
                    i <= ids.len(),
                    *self == *old(self),
                    self.wf(),
                    self.inside(position),
                    self.possible(position).len() >= 2,
                    ids@.to_set() == self.possible(position),
                    self.ready() ==> forall|j: int|
                        0 <= j < i ==> self.can_be(position, #[trigger] ids@[j]),
                decreases ids.len() - i,
            {
                let id = ids[i];
                proof {
                    assert(ids@.to_set().contains(id));
                    self.lemma_possible(position);
                }
                let mut attempt = self.copy();
                let ghost copied = attempt;
                attempt.settle(&position, id);
                let ghost assumed = attempt;
                proof {
                    assert(copied.possible(position) == self.possible(position));
                    assert(assumed.possible(position) =~= set![id]);
                    assert(assumed.possible(position) != copied.possible(position)) by {
                        assert(set![id].len() == 1);
                    }
                    assert(assumed.measure() < self.measure());
                    if self.ready() {
                        copied.lemma_ready(self);
                        assert(assumed.filled()) by {
                            assert forall|q: Position| assumed.inside(q) implies #[trigger] assumed.possible(
                                q,
                            ) != Set::<usize>::empty() by {
                                if q == position {
                                    assert(assumed.possible(q).contains(id));
                                } else {
                                    assert(copied.inside(q));
                                    assert(assumed.possible(q) == copied.possible(q));
                                }
                            }
                        }
                        assumed.lemma_ready(&copied);
                    }
                }
                match attempt.solve() {
                    Err(_) => {
                        self.exclude(&position, id);
                        proof {
                            assert forall|a: spec_fn(Position) -> usize, p: Position|
                                #![trigger old(self).consistent(a), self.possible(p)]
                                old(self).consistent(a) && self.inside(p) implies self.possible(
                                p,
                            ).contains(a(p)) by {
                                assert(old(self).possible(p).contains(a(p)));
                                if p == position && a(p) == id {
                                    assert(copied.consistent(a));
                                    assert(assumed.consistent(a)) by {
                                        assumed.lemma_solved_same(&copied, a);
                                        assert forall|q: Position|
                                            assumed.inside(q) implies #[trigger] assumed.possible(
                                            q,
                                        ).contains(a(q)) by {
                                            assert(copied.possible(q).contains(a(q)));
                                        }
                                    }
                                    assert(false);
                                }
                            }
                            self.lemma_ruled_out(old(self));
                            if old(self).ready() {
                                assert(self.filled()) by {
                                    assert forall|q: Position|
                                        self.inside(q) implies #[trigger] self.possible(q)
                                        != Set::<usize>::empty() by {
                                        assert(old(self).inside(q));
                                        if q == position {
                                            assert(self.possible(q).len() >= 1);
                                        } else {
                                            assert(self.possible(q) == old(self).possible(q));
                                        }
                                    }
                                }
                                self.lemma_ready(old(self));
                            }
                        }
                        return Ok(true);
                    },
                    Ok(_) => {
                        proof {
                            if self.ready() {
                                let a = choose|a: spec_fn(Position) -> usize| #[trigger]
                                    attempt.consistent(a);
                                attempt.lemma_consistent_back(&assumed, a);
                                assert(assumed.possible(position).contains(a(position)));
                                assumed.lemma_consistent_back(&copied, a);
                                assert(self.consistent(a));
                                assert(self.can_be(position, id));
                            }
                        }
                    },
                }
                i += 1;
            }
            proof {
                if self.ready() {
                    assert forall|id: usize|
                        #![trigger self.possible(position).contains(id)]
                        self.possible(position).contains(id) implies self.can_be(position, id) by {
                        assert(ids@.to_set().contains(id));
                        assert(ids@.contains(id));
                        let j = choose|j: int| 0 <= j < ids@.len() && ids@[j] == id;
                        assert(self.can_be(position, ids@[j]));
                    }
                }
            }
            k += 1;
        }
        proof {
            if self.ready() {
                assert forall|p: Position, id: usize|
                    #![trigger self.possible(p).contains(id)]
                    self.inside(p) && self.possible(p).contains(id) && self.possible(p).len()
                        >= 2 implies self.can_be(p, id) by {
                    let item = (self.possible(p).len() as usize, p);
                    assert(listed.contains(item));
                    assert(sorted@.contains(item));
                    let m = choose|m: int| 0 <= m < sorted@.len() && sorted@[m] == item;
                    assert(self.possible(sorted@[m].1).contains(id));
                }
            }
        }
        Ok(false)
    }

    /// Works out what follows from the centers: applies the rules, one after the
    /// other, for as long as one of them finds out something new. When none
    /// does, the walls that are known to stand are the solution. Fails where
    /// what is known contradicts itself; it never does where the puzzle has a
    /// solution of which what is known is true.
    pub fn solve(&mut self) -> (result: Result<Solution, Contradiction>)
        requires
            old(self).wf(),
        ensures
            final(self).narrows(old(self)),
            final(self).measure() <= old(self).measure(),
            final(self).keeps_solutions(old(self)),
            match result {
                Ok(solution) => {
                    &&& final(self).wf()
                    &&& final(self).settled()
                    &&& solution.borders.wf()
                    &&& forall|b: Border|
                        #![trigger solution.borders@.contains(b)]
                        solution.borders@.contains(b) <==> final(self).known().contains_key(b)
                            && final(self).known()[b]
                    &&& old(self).ready() ==> final(self).ready() && final(self).choices_stand()
                        && final(self).solvable()
                },
                Err(_) => old(self).hopeless(),
            },
        decreases old(self).measure(), 1nat,
    {
        let mut done: bool = false;
        proof {
            assert(self.narrows(old(self))) by {
                assert forall|p: Position| self.inside(p) implies (
                #[trigger] self.possible(p)).subset_of(old(self).possible(p)) by {}
            }
            assert(self.keeps_solutions(old(self)));
        }
        while !done
            invariant
                self.wf(),
                old(self).wf(),
                self.narrows(old(self)),
                self.measure() <= old(self).measure(),
                self.keeps_solutions(old(self)),
                done ==> self.settled(),
                old(self).ready() ==> self.ready(),
                done && old(self).ready() ==> self.choices_stand(),
            decreases self.measure(), (if done { 0nat } else { 1nat }),
        {
            let ghost start = *self;
            match self.add_borders_between_known_galaxies() {
                Err(contradiction) => {
                    proof {
                        self.lemma_narrows_chain(&start, old(self));
                        self.lemma_keeps_chain(&start, old(self));
                        start.lemma_doomed(old(self));
                    }
                    return Err(contradiction);
                },
                Ok(true) => {
                    proof {
                        self.lemma_narrows_chain(&start, old(self));
                        self.lemma_keeps_chain(&start, old(self));
                        if start.ready() {
                            self.lemma_ready(&start);
                        }
                    }
                },
                Ok(false) => {
                    let ghost first = *self;
                    proof {
                        if start.ready() {
                            first.lemma_ready(&start);
                        }
                    }
                    match self.mirror_borders() {
                        Err(contradiction) => {
                            proof {
                                self.lemma_narrows_chain(&first, &start);
                                self.lemma_narrows_chain(&start, old(self));
                                self.lemma_keeps_chain(&first, &start);
                                self.lemma_keeps_chain(&start, old(self));
                                first.lemma_doomed(&start);
                                start.lemma_doomed(old(self));
                            }
                            return Err(contradiction);
                        },
                        Ok(true) => {
                            proof {
                                self.lemma_narrows_chain(&first, &start);
                                self.lemma_narrows_chain(&start, old(self));
                                self.lemma_keeps_chain(&first, &start);
                                self.lemma_keeps_chain(&start, old(self));
                                if first.ready() {
                                    self.lemma_ready(&first);
                                }
                            }
                        },
                        Ok(false) => {
                            let ghost second = *self;
                            proof {
                                if first.ready() {
                                    second.lemma_ready(&first);
                                }
                            }
                            match self.exclude_unreachable_galaxies() {
                                Err(contradiction) => {
                                    proof {
                                        self.lemma_narrows_chain(&second, &first);
                                        self.lemma_narrows_chain(&first, &start);
                                        self.lemma_narrows_chain(&start, old(self));
                                        self.lemma_keeps_chain(&second, &first);
                                        self.lemma_keeps_chain(&first, &start);
                                        self.lemma_keeps_chain(&start, old(self));
                                        second.lemma_doomed(&first);
                                        first.lemma_doomed(&start);
                                        start.lemma_doomed(old(self));
                                    }
                                    return Err(contradiction);
                                },
                                Ok(true) => {
                                    proof {
                                        self.lemma_narrows_chain(&second, &first);
                                        self.lemma_narrows_chain(&first, &start);
                                        self.lemma_narrows_chain(&start, old(self));
                                        self.lemma_keeps_chain(&second, &first);
                                        self.lemma_keeps_chain(&first, &start);
                                        self.lemma_keeps_chain(&start, old(self));
                                        if second.ready() {
                                            self.lemma_ready(&second);
                                        }
                                    }
                                },
                                Ok(false) => {
                                    let ghost third = *self;
                                    proof {
                                        if second.ready() {
                                            third.lemma_ready(&second);
                                        }
                                    }
                                    match self.remove_impossible_galaxy_mirrors() {
                                        Err(contradiction) => {
                                            proof {
                                                self.lemma_narrows_chain(&third, &second);
                                                self.lemma_narrows_chain(&second, &first);
                                                self.lemma_narrows_chain(&first, &start);
                                                self.lemma_narrows_chain(&start, old(self));
                                                self.lemma_keeps_chain(&third, &second);
                                                self.lemma_keeps_chain(&second, &first);
                                                self.lemma_keeps_chain(&first, &start);
                                                self.lemma_keeps_chain(&start, old(self));
                                                third.lemma_doomed(&second);
                                                second.lemma_doomed(&first);
                                                first.lemma_doomed(&start);
                                                start.lemma_doomed(old(self));
                                            }
                                            return Err(contradiction);
                                        },
                                        Ok(true) => {
                                            proof {
                                                self.lemma_narrows_chain(&third, &second);
                                                self.lemma_narrows_chain(&second, &first);
                                                self.lemma_narrows_chain(&first, &start);
                                                self.lemma_narrows_chain(&start, old(self));
                                                self.lemma_keeps_chain(&third, &second);
                                                self.lemma_keeps_chain(&second, &first);
                                                self.lemma_keeps_chain(&first, &start);
                                                self.lemma_keeps_chain(&start, old(self));
                                                if third.ready() {
                                                    self.lemma_ready(&third);
                                                }
                                            }
                                        },
                                        Ok(false) => {
                                            let ghost fourth = *self;
                                            proof {
                                                if third.ready() {
                                                    fourth.lemma_ready(&third);
                                                }
                                            }
                                            let assumed = self.assume_galaxy();
                                            proof {
                                                self.lemma_narrows_chain(&fourth, &third);
                                                self.lemma_narrows_chain(&third, &second);
                                                self.lemma_narrows_chain(&second, &first);
                                                self.lemma_narrows_chain(&first, &start);
                                                self.lemma_narrows_chain(&start, old(self));
                                                self.lemma_keeps_chain(&fourth, &third);
                                                self.lemma_keeps_chain(&third, &second);
                                                self.lemma_keeps_chain(&second, &first);
                                                self.lemma_keeps_chain(&first, &start);
                                                self.lemma_keeps_chain(&start, old(self));
                                            }
                                            match assumed {
                                                Ok(true) => {},
                                                _ => {
                                                    proof {
                                                        self.lemma_settled(
                                                            &fourth,
                                                            &third,
                                                            &second,
                                                            &first,
                                                        );
                                                    }
                                                    done = true;
                                                },
                                            }
                                        },
                                    }
                                },
                            }
                        },
                    }
                },
            }
        }
        proof {
            if old(self).ready() {
                self.lemma_solvable();
            }
        }
        let borders = self.get_borders();
        Ok(Solution { borders })
    }

    /// Where what is known now is true of no solution, and it is true of every
    /// solution of which what was known before is true, that was true of none
    /// either.
    proof fn lemma_doomed(&self, before: &Solver)
        requires
            self.hopeless(),
            self.keeps_solutions(before),
        ensures
            before.hopeless(),
    {
        assert forall|a: spec_fn(Position) -> usize| !#[trigger] before.consistent(a) by {
            if before.consistent(a) {
                assert(self.consistent(a));
            }
        }
    }

    /// When the five rules, one after the other, have found out nothing new,
    /// nothing more follows from what is known.
    proof fn lemma_settled(
        &self,
        fourth: &Solver,
        third: &Solver,
        second: &Solver,
        first: &Solver,
    )
        requires
            first.wf(),
            first.known_galaxies_parted(),
            second.same_as(first),
            second.borders_mirrored(),
            third.same_as(second),
            forall|p: Position, id: usize|
                #![trigger third.possible(p).contains(id)]
                third.inside(p) ==> (third.possible(p).contains(id) <==> second.possible(p).contains(
                    id,
                ) && second.reaches(id, p)),
            fourth.same_as(third),
            forall|p: Position, id: usize|
                #![trigger fourth.possible(p).contains(id)]
                fourth.inside(p) ==> (fourth.possible(p).contains(id) <==> third.possible(
                    p,
                ).contains(id) && third.mirror_possible(id, p)),
            self.same_as(fourth),
        ensures
            self.settled(),
    {
        second.lemma_same(first);
        third.lemma_same(second);
        fourth.lemma_same(third);
        self.lemma_same(fourth);
        assert forall|p: Position, q: Position, i: usize, j: usize|
            #![trigger self.certain(p, i), self.certain(q, j)]
            self.certain(p, i) && self.certain(q, j) && p.adjacent_to(q) implies self.agreed(
            p,
            q,
            i,
            j,
        ) by {
            assert(fourth.certain(p, i) && third.certain(p, i) && second.certain(p, i)
                && first.certain(p, i));
            assert(fourth.certain(q, j) && third.certain(q, j) && second.certain(q, j)
                && first.certain(q, j));
            assert(first.agreed(p, q, i, j));
        }
        assert forall|p: Position, id: usize, b: Border|
            #![trigger self.certain(p, id), touches(b, p)]
            self.certain(p, id) && touches(b, p) implies self.mirror_agrees(id, b) by {
            assert(fourth.certain(p, id) && third.certain(p, id) && second.certain(p, id));
            assert(second.mirror_agrees(id, b));
        }
        assert forall|p: Position, id: usize|
            #![trigger self.possible(p).contains(id)]
            self.inside(p) && self.possible(p).contains(id) implies self.reaches(id, p)
            && self.mirror_possible(id, p) by {
            assert(fourth.possible(p) == self.possible(p));
            assert(third.possible(p) == fourth.possible(p));
            assert(second.possible(p) == third.possible(p));
            assert(fourth.possible(p).contains(id));
            assert(third.possible(p).contains(id));
            assert(second.reaches(id, p));
            assert(third.mirror_possible(id, p));
            assert(self.room(id) == second.room(id));
            assert(self.room(id) == fourth.room(id));
            let m = self.centers()[id as int].position.mirrored(p);
            assert(third.inside(m) && third.possible(m).contains(id));
            assert(fourth.possible(m) == third.possible(m));
            assert(self.possible(m) == fourth.possible(m));
        }
    }
}

} // verus!

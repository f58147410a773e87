//! Universes: the partition of a grid into galaxies, and the step that grows one.
use itertools::Itertools;
use rand::rngs::StdRng;
use rand::seq::SliceRandom;
use rand::{Rng, SeedableRng};
use vstd::prelude::*;

use crate::galaxy::{
    all_in_range, center_of, connected, holds_center, lemma_bounds_exist, lemma_center_range,
    lemma_connected_grows, lemma_mirror_pair_joins, lemma_single_valid, symmetric, valid_shape,
    Galaxy,
};
use crate::growth::{lemma_grown_holds_center, lemma_pair_holds_center};
use crate::rectangle::bounding_of;
use crate::border::Border;
use crate::ordered::{ascending, SortedSet};
use crate::text::{draw, drawing, string_of, Bars};
use crate::position::{in_turn, Position, COORDINATE_LIMIT};
use crate::reach::{lemma_prefix_contains, lemma_push_contains};

verus! {

/// The random number generator that the generator draws from.
#[verifier::external_type_specification]
#[verifier::external_body]
pub struct ExStdRng(StdRng);

/// Calls `SeedableRng::seed_from_u64` of the `rand` crate, which makes a
/// generator of random numbers out of the seed. Nothing is claimed of the
/// generator that comes back.
#[verifier::external_body]
fn seeded(seed: u64) -> (rng: StdRng) {
    StdRng::seed_from_u64(seed)
}

/// Calls `Rng::gen_range` of the `rand` crate on the range from zero up to, not
/// including, `bound`. Whatever number is drawn lies in that range.
#[verifier::external_body]
fn random_below(rng: &mut StdRng, bound: usize) -> (drawn: usize)
    requires
        bound > 0,
    ensures
        drawn < bound,
{
    rng.gen_range(0..bound)
}

/// Calls `SliceRandom::choose` of the `rand` crate. Whatever is drawn is one of
/// `items`; nothing is drawn only where there are no items.
#[verifier::external_body]
fn choose_position(rng: &mut StdRng, items: &Vec<Position>) -> (drawn: Option<Position>)
    ensures
        match drawn {
            Some(p) => items@.contains(p),
            None => items@.len() == 0,
        },
{
    items.choose(rng).copied()
}

/// The positions of the entries with the identifier `id`, in the order of the
/// entries.
pub open spec fn group_of(entries: Seq<(usize, Position)>, id: usize) -> Seq<Position>
    decreases entries.len(),
{
    if entries.len() == 0 {
        Seq::empty()
    } else if entries.last().0 == id {
        group_of(entries.drop_last(), id).push(entries.last().1)
    } else {
        group_of(entries.drop_last(), id)
    }
}

/// `group` holds, behind an identifier that occurs in `entries`, the positions of
/// that identifier.
pub open spec fn is_group(entries: Seq<(usize, Position)>, group: (usize, Vec<Position>)) -> bool {
    &&& group.1@ == group_of(entries, group.0)
    &&& exists|k: int| 0 <= k < entries.len() && (#[trigger] entries[k]).0 == group.0
}

/// One of `groups` is the group of the identifier `id`.
pub open spec fn has_group(groups: Seq<(usize, Vec<Position>)>, id: usize) -> bool {
    exists|i: int| 0 <= i < groups.len() && (#[trigger] groups[i]).0 == id
}

/// Calls `Itertools::into_group_map` of the `itertools` crate and hands out the
/// entries of the map it returns, in whatever order the map is walked. Each
/// entry holds an identifier that occurs and its positions in the order in which
/// they were given, every identifier that occurs has its entry, and none has
/// two.
#[verifier::external_body]
fn group_by_id(entries: Vec<(usize, Position)>) -> (groups: Vec<(usize, Vec<Position>)>)
    ensures
        forall|i: int| 0 <= i < groups@.len() ==> is_group(entries@, #[trigger] groups@[i]),
        forall|k: int|
            0 <= k < entries@.len() ==> has_group(groups@, (#[trigger] entries@[k]).0),
        forall|i: int, j: int|
            0 <= i < j < groups@.len() ==> (#[trigger] groups@[i]).0 != (#[trigger] groups@[j]).0,
{
    entries.into_iter().into_group_map().into_iter().collect()
}

/// How many of the flags are set.
pub open spec fn count_set(flags: Seq<bool>) -> nat
    decreases flags.len(),
{
    if flags.len() == 0 {
        0
    } else {
        count_set(flags.drop_last()) + if flags.last() {
            1nat
        } else {
            0nat
        }
    }
}

proof fn lemma_count_none(flags: Seq<bool>)
    requires
        forall|i: int| 0 <= i < flags.len() ==> !flags[i],
    ensures
        count_set(flags) == 0,
    decreases flags.len(),
{
    if flags.len() > 0 {
        lemma_count_none(flags.drop_last());
    }
}

proof fn lemma_count_all(flags: Seq<bool>)
    requires
        forall|i: int| 0 <= i < flags.len() ==> flags[i],
    ensures
        count_set(flags) == flags.len(),
    decreases flags.len(),
{
    if flags.len() > 0 {
        lemma_count_all(flags.drop_last());
    }
}

proof fn lemma_count_one_more(flags: Seq<bool>, at: int)
    requires
        0 <= at < flags.len(),
    ensures
        count_set(flags.update(at, true)) <= count_set(flags) + 1,
    decreases flags.len(),
{
    let after = flags.update(at, true);
    if at == flags.len() - 1 {
        assert(after.drop_last() =~= flags.drop_last());
    } else {
        lemma_count_one_more(flags.drop_last(), at);
        assert(after.drop_last() =~= flags.drop_last().update(at, true));
    }
}

/// A grid of galaxy identifiers. Cells with the same identifier belong to the
/// same galaxy.
#[derive(Clone, Debug)]
pub struct Universe {
    grid: Vec<Vec<usize>>,
}

impl Universe {
    /// The number of rows.
    pub closed spec fn rows(&self) -> int {
        self.grid@.len() as int
    }

    /// The number of columns.
    pub closed spec fn columns(&self) -> int {
        if self.grid@.len() > 0 {
            self.grid@[0]@.len() as int
        } else {
            0
        }
    }

    /// The identifier of the cell `p`.
    pub closed spec fn id_at(&self, p: Position) -> usize {
        self.grid@[p.row as int]@[p.column as int]
    }

    /// All rows have the same length.
    pub closed spec fn rectangular(&self) -> bool {
        forall|r: int| 0 <= r < self.grid@.len() ==> (#[trigger] self.grid@[r])@.len() == self.columns()
    }

    /// `p` is a cell of the grid.
    pub open spec fn inside(&self, p: Position) -> bool {
        0 <= p.row < self.rows() && 0 <= p.column < self.columns()
    }

    /// The universe is well formed: its grid is rectangular, and small enough for
    /// its cells to be positions and to be counted.
    pub open spec fn wf(&self) -> bool {
        &&& self.rectangular()
        &&& 0 <= self.rows() <= COORDINATE_LIMIT
        &&& 0 <= self.columns() <= COORDINATE_LIMIT
        &&& self.rows() * self.columns() < usize::MAX
    }

    /// The cells that carry the identifier `id`.
    pub open spec fn cells_of(&self, id: usize) -> Set<Position> {
        Set::new(|p: Position| self.inside(p) && self.id_at(p) == id)
    }

    /// The galaxy of the cell `p`: the cells that carry its identifier.
    pub open spec fn galaxy_at(&self, p: Position) -> Set<Position> {
        self.cells_of(self.id_at(p))
    }

    /// No cell carries the identifier `id`.
    pub open spec fn unused(&self, id: usize) -> bool {
        forall|p: Position| self.inside(p) ==> self.id_at(p) != id
    }

    /// Every galaxy is valid.
    pub open spec fn valid(&self) -> bool {
        forall|p: Position| self.inside(p) ==> valid_shape(#[trigger] self.galaxy_at(p))
    }

    /// The other universe has the same size.
    pub open spec fn same_size(&self, other: &Universe) -> bool {
        self.rows() == other.rows() && self.columns() == other.columns()
    }

    /// The universe is the other one but for the identifier of `p`, which is
    /// `id`.
    pub open spec fn is_update_of(&self, other: &Universe, p: Position, id: usize) -> bool {
        &&& self.same_size(other)
        &&& self.wf() == other.wf()
        &&& self.id_at(p) == id
        &&& forall|q: Position| self.inside(q) && q != p ==> self.id_at(q) == other.id_at(q)
    }

    /// The galaxies of a well-formed universe are finite sets of cells within the
    /// coordinate limit.
    pub proof fn lemma_galaxy(&self, id: usize)
        requires
            self.wf(),
        ensures
            self.cells_of(id).finite(),
            all_in_range(self.cells_of(id)),
    {
        let all = crate::rectangle::Rectangle {
            min_row: 0,
            max_row: self.rows() as i32,
            min_column: 0,
            max_column: self.columns() as i32,
        };
        lemma_rectangle_finite(all);
        assert(self.cells_of(id).subset_of(all.cells()));
        vstd::set_lib::lemma_len_subset(self.cells_of(id), all.cells());
    }

    /// The universe of `width` columns and `height` rows in which every cell is a
    /// galaxy of its own: the cell in row `r` and column `c` carries the
    /// identifier `r * width + c`.
    pub fn new(width: usize, height: usize) -> (universe: Universe)
        requires
            width <= COORDINATE_LIMIT,
            height <= COORDINATE_LIMIT,
            width * height < usize::MAX,
        ensures
            universe.wf(),
            universe.rows() == height,
            height > 0 ==> universe.columns() == width,
            forall|p: Position|
                universe.inside(p) ==> universe.id_at(p) == p.row * width + p.column,
            universe.single(),
            universe.valid(),
    {
        let mut grid: Vec<Vec<usize>> = Vec::new();
        let mut row: usize = 0;
        while row < height
            invariant
                row <= height,
                width * height < usize::MAX,
                grid@.len() == row,
                forall|r: int| 0 <= r < row ==> (#[trigger] grid@[r])@.len() == width,
                forall|r: int, c: int|
                    0 <= r < row && 0 <= c < width ==> (#[trigger] grid@[r]@[c]) == r * width + c,
            decreases height - row,
        {
            let mut line: Vec<usize> = Vec::new();
            let mut column: usize = 0;
            proof {
                assert(row * width + width <= width * height) by (nonlinear_arith)
                    requires
                        row + 1 <= height,
                        width >= 0,
                ;
            }
            let base: usize = row * width;
            while column < width
                invariant
                    column <= width,
                    base == row * width,
                    base + width < usize::MAX,
                    line@.len() == column,
                    forall|c: int| 0 <= c < column ==> #[trigger] line@[c] == base + c,
                decreases width - column,
            {
                line.push(base + column);
                column += 1;
            }
            grid.push(line);
            row += 1;
        }
        let universe = Universe { grid };
        proof {
            assert(universe.rows() * universe.columns() < usize::MAX) by {
                if height > 0 {
                    assert(universe.columns() == width);
                    assert(height * width == width * height) by (nonlinear_arith);
                } else {
                    assert(universe.rows() * universe.columns() == 0) by (nonlinear_arith)
                        requires
                            universe.rows() == 0,
                    ;
                }
            }
            assert forall|p: Position| universe.inside(p) implies universe.id_at(p) == p.row
                * width + p.column by {
                assert(universe.grid@[p.row as int]@[p.column as int] == p.row * width + p.column);
            }
            assert forall|p: Position| universe.inside(p) implies valid_shape(
                #[trigger] universe.galaxy_at(p),
            ) by {
                assert forall|q: Position| universe.galaxy_at(p).contains(q) implies q == p by {
                    lemma_cell_number(
                        width as int,
                        p.row as int,
                        p.column as int,
                        q.row as int,
                        q.column as int,
                    );
                }
                assert(universe.galaxy_at(p) =~= set![p]);
                lemma_single_valid(p);
            }
            assert forall|p: Position| universe.inside(p) implies #[trigger] universe.galaxy_at(p)
                == set![p] by {
                assert forall|q: Position| universe.galaxy_at(p).contains(q) implies q == p by {
                    lemma_cell_number(
                        width as int,
                        p.row as int,
                        p.column as int,
                        q.row as int,
                        q.column as int,
                    );
                }
                assert(universe.galaxy_at(p) =~= set![p]);
            }
        }
        universe
    }

    /// A universe with the same identifiers.
    pub fn copy(&self) -> (twin: Universe)
        requires
            self.wf(),
        ensures
            twin.wf(),
            twin.same_as(self),
    {
        let mut grid: Vec<Vec<usize>> = Vec::new();
        let mut row: usize = 0;
        while row < self.grid.len()
            invariant
                row <= self.grid@.len(),
                grid@.len() == row,
                forall|r: int| 0 <= r < row ==> (#[trigger] grid@[r])@ == self.grid@[r]@,
            decreases self.grid@.len() - row,
        {
            let mut line: Vec<usize> = Vec::new();
            let mut column: usize = 0;
            while column < self.grid[row].len()
                invariant
                    row < self.grid@.len(),
                    column <= self.grid@[row as int]@.len(),
                    line@ == self.grid@[row as int]@.subrange(0, column as int),
                decreases self.grid@[row as int]@.len() - column,
            {
                line.push(self.grid[row][column]);
                proof {
                    assert(line@ =~= self.grid@[row as int]@.subrange(0, column + 1));
                }
                column += 1;
            }
            proof {
                assert(line@ =~= self.grid@[row as int]@);
            }
            grid.push(line);
            row += 1;
        }
        let twin = Universe { grid };
        proof {
            assert(twin.grid@.len() == self.grid@.len());
            assert(twin.columns() == self.columns());
            assert forall|r: int| 0 <= r < twin.grid@.len() implies (#[trigger] twin.grid@[r])@.len()
                == twin.columns() by {
                assert(self.grid@[r]@.len() == self.columns());
            }
        }
        twin
    }

    /// Universes with the same identifiers have the same galaxies.
    pub proof fn lemma_same_galaxies(&self, other: &Universe)
        requires
            self.same_as(other),
        ensures
            forall|p: Position|
                self.inside(p) ==> #[trigger] self.galaxy_at(p) == other.galaxy_at(p),
            self.valid() == other.valid(),
            self.sound() == other.sound(),
    {
        assert forall|p: Position| self.inside(p) implies #[trigger] self.galaxy_at(p)
            == other.galaxy_at(p) by {
            assert(self.galaxy_at(p) =~= other.galaxy_at(p));
        }
        assert forall|p: Position| other.inside(p) implies #[trigger] other.galaxy_at(p)
            == self.galaxy_at(p) by {
            assert(self.inside(p));
            assert(self.galaxy_at(p) == other.galaxy_at(p));
        }
    }

    pub fn get_width(&self) -> (width: usize)
        ensures
            width == self.columns(),
    {
        if self.grid.len() > 0 {
            self.grid[0].len()
        } else {
            0
        }
    }

    pub fn get_height(&self) -> (height: usize)
        ensures
            height == self.rows(),
    {
        self.grid.len()
    }

    /// Whether `p` lies within the bounds of the universe.
    pub fn is_inside(&self, p: &Position) -> (b: bool)
        requires
            self.wf(),
        ensures
            b == self.inside(*p),
    {
        p.row >= 0 && (p.row as usize) < self.get_height() && p.column >= 0 && (
        p.column as usize) < self.get_width()
    }

    pub fn is_outside(&self, p: &Position) -> (b: bool)
        requires
            self.wf(),
        ensures
            b == !self.inside(*p),
    {
        !self.is_inside(p)
    }

    /// The identifier of the galaxy that the cell `p` belongs to.
    pub fn get_id(&self, p: &Position) -> (id: usize)
        requires
            self.wf(),
            self.inside(*p),
        ensures
            id == self.id_at(*p),
    {
        self.grid[p.row as usize][p.column as usize]
    }

    /// Gives the cell `p` the identifier `id`.
    pub fn set_id(&mut self, p: &Position, id: usize)
        requires
            old(self).wf(),
            old(self).inside(*p),
        ensures
            final(self).is_update_of(old(self), *p, id),
            final(self).wf(),
    {
        let row: usize = p.row as usize;
        let column: usize = p.column as usize;
        let ghost before = self.grid@;
        self.grid[row][column] = id;
        proof {
            assert(self.grid@.len() == before.len());
            assert forall|r: int| 0 <= r < self.grid@.len() implies (#[trigger] self.grid@[r])@.len()
                == before[r]@.len() by {
                if r != row {
                    assert(self.grid@[r] == before[r]);
                }
            }
            assert forall|q: Position| self.inside(q) && q != *p implies self.id_at(q) == old(
                self,
            ).id_at(q) by {
                if q.row != p.row {
                    assert(self.grid@[q.row as int] == before[q.row as int]);
                }
            }
        }
    }

    /// Whether both cells lie within the universe and belong to the same galaxy.
    pub fn are_neighbours(&self, p1: &Position, p2: &Position) -> (b: bool)
        requires
            self.wf(),
        ensures
            b == (self.inside(*p1) && self.inside(*p2) && self.id_at(*p1) == self.id_at(*p2)),
    {
        self.is_inside(p1) && self.is_inside(p2) && self.get_id(p1) == self.get_id(p2)
    }

    /// The cells of the universe, row by row.
    pub fn get_positions(&self) -> (cells: Vec<Position>)
        requires
            self.wf(),
        ensures
            forall|p: Position| cells@.contains(p) <==> self.inside(p),
            ascending(cells@),
    {
        let entries = self.get_entries();
        let mut cells: Vec<Position> = Vec::new();
        let mut i: usize = 0;
        while i < entries.len()
            invariant
                i <= entries.len(),
                cells@.len() == i,
                forall|k: int| 0 <= k < i ==> #[trigger] cells@[k] == entries@[k].0,
            decreases entries.len() - i,
        {
            cells.push(entries[i].0);
            i += 1;
        }
        proof {
            assert forall|p: Position| cells@.contains(p) <==> self.inside(p) by {
                if cells@.contains(p) {
                    let k = choose|k: int| 0 <= k < cells@.len() && cells@[k] == p;
                    assert(entries@[k].0 == p);
                }
                if self.inside(p) {
                    let k = choose|k: int| 0 <= k < entries@.len() && (#[trigger] entries@[k]).0 == p;
                    assert(cells@[k] == p);
                }
            }
            assert forall|i: int, j: int| 0 <= i < j < cells@.len() implies cells@[i].precedes(
                cells@[j],
            ) by {
                assert(entries@[i].0.precedes(entries@[j].0));
            }
        }
        cells
    }

    /// The cells of the universe, row by row, each with its identifier.
    pub fn get_entries(&self) -> (entries: Vec<(Position, usize)>)
        requires
            self.wf(),
        ensures
            forall|k: int|
                0 <= k < entries@.len() ==> self.inside((#[trigger] entries@[k]).0)
                    && entries@[k].1 == self.id_at(entries@[k].0),
            forall|p: Position|
                self.inside(p) ==> exists|k: int|
                    0 <= k < entries@.len() && (#[trigger] entries@[k]).0 == p,
            forall|i: int, j: int|
                0 <= i < j < entries@.len() ==> (#[trigger] entries@[i]).0.precedes(
                    (#[trigger] entries@[j]).0,
                ),
    {
        let mut entries: Vec<(Position, usize)> = Vec::new();
        let height = self.get_height();
        let width = self.get_width();
        let mut row: usize = 0;
        while row < height
            invariant
                self.wf(),
                height == self.rows(),
                width == self.columns(),
                row <= height,
                forall|k: int|
                    0 <= k < entries@.len() ==> self.inside((#[trigger] entries@[k]).0)
                        && entries@[k].1 == self.id_at(entries@[k].0) && entries@[k].0.row < row,
                forall|p: Position|
                    self.inside(p) && p.row < row ==> exists|k: int|
                        0 <= k < entries@.len() && (#[trigger] entries@[k]).0 == p,
                forall|i: int, j: int|
                    0 <= i < j < entries@.len() ==> (#[trigger] entries@[i]).0.precedes(
                        (#[trigger] entries@[j]).0,
                    ),
            decreases height - row,
        {
            let mut column: usize = 0;
            while column < width
                invariant
                    self.wf(),
                    height == self.rows(),
                    width == self.columns(),
                    row < height,
                    column <= width,
                    forall|k: int|
                        0 <= k < entries@.len() ==> self.inside((#[trigger] entries@[k]).0)
                            && entries@[k].1 == self.id_at(entries@[k].0) && (entries@[k].0.row
                            < row || (entries@[k].0.row == row && entries@[k].0.column < column)),
                    forall|p: Position|
                        self.inside(p) && (p.row < row || (p.row == row && p.column < column))
                            ==> exists|k: int|
                            0 <= k < entries@.len() && (#[trigger] entries@[k]).0 == p,
                    forall|i: int, j: int|
                        0 <= i < j < entries@.len() ==> (#[trigger] entries@[i]).0.precedes(
                            (#[trigger] entries@[j]).0,
                        ),
                decreases width - column,
            {
                let p = Position::at(row, column);
                let ghost before = entries@;
                entries.push((p, self.get_id(&p)));
                proof {
                    assert forall|q: Position|
                        self.inside(q) && (q.row < row || (q.row == row && q.column < column + 1))
                        implies exists|k: int|
                        0 <= k < entries@.len() && (#[trigger] entries@[k]).0 == q by {
                        if q == p {
                            assert(entries@[before.len() as int].0 == q);
                        } else {
                            let k = choose|k: int|
                                0 <= k < before.len() && (#[trigger] before[k]).0 == q;
                            assert(entries@[k].0 == q);
                        }
                    }
                }
                column += 1;
            }
            row += 1;
        }
        entries
    }

    /// The identifiers of the cells, row by row.
    pub fn get_ids(&self) -> (ids: Vec<usize>)
        requires
            self.wf(),
        ensures
            ids@.len() == self.rows() * self.columns(),
            forall|r: int, c: int|
                0 <= r < self.rows() && 0 <= c < self.columns() ==> (#[trigger] ids@[r
                    * self.columns() + c]) == self.id_at(
                    Position { row: r as i32, column: c as i32 },
                ),
            forall|id: usize| ids@.contains(id) <==> !self.unused(id),
    {
        let mut ids: Vec<usize> = Vec::new();
        let height = self.get_height();
        let width = self.get_width();
        let mut row: usize = 0;
        while row < height
            invariant
                self.wf(),
                height == self.rows(),
                width == self.columns(),
                row <= height,
                ids@.len() == row * width,
                forall|r: int, c: int|
                    0 <= r < row && 0 <= c < width ==> (#[trigger] ids@[r * width + c])
                        == self.id_at(Position { row: r as i32, column: c as i32 }),
                forall|k: int| 0 <= k < ids@.len() ==> !self.unused(#[trigger] ids@[k]),
            decreases height - row,
        {
            let mut column: usize = 0;
            while column < width
                invariant
                    self.wf(),
                    height == self.rows(),
                    width == self.columns(),
                    row < height,
                    column <= width,
                    ids@.len() == row * width + column,
                    forall|r: int, c: int|
                        (0 <= r < row && 0 <= c < width) || (r == row && 0 <= c < column) ==> (
                        #[trigger] ids@[r * width + c]) == self.id_at(
                            Position { row: r as i32, column: c as i32 },
                        ),
                    forall|k: int| 0 <= k < ids@.len() ==> !self.unused(#[trigger] ids@[k]),
                decreases width - column,
            {
                let p = Position::at(row, column);
                let ghost before = ids@;
                ids.push(self.get_id(&p));
                proof {
                    assert forall|r: int, c: int|
                        (0 <= r < row && 0 <= c < width) || (r == row && 0 <= c < column
                            + 1) implies (#[trigger] ids@[r * width + c]) == self.id_at(
                        Position { row: r as i32, column: c as i32 },
                    ) by {
                        if r < row {
                            assert(r * width + c < row * width) by (nonlinear_arith)
                                requires
                                    0 <= r < row,
                                    0 <= c < width,
                            ;
                            assert(ids@[r * width + c] == before[r * width + c]);
                        } else if c < column {
                            assert(ids@[r * width + c] == before[r * width + c]);
                        }
                    }
                    assert forall|k: int| 0 <= k < ids@.len() implies !self.unused(
                        #[trigger] ids@[k],
                    ) by {
                        if k < before.len() {
                            assert(ids@[k] == before[k]);
                        } else {
                            assert(self.inside(p) && self.id_at(p) == ids@[k]);
                        }
                    }
                }
                column += 1;
            }
            proof {
                assert(row * width + width == (row + 1) * width) by (nonlinear_arith);
            }
            row += 1;
        }
        proof {
            assert forall|id: usize| ids@.contains(id) <==> !self.unused(id) by {
                if ids@.contains(id) {
                    let k = choose|k: int| 0 <= k < ids@.len() && ids@[k] == id;
                    assert(!self.unused(ids@[k]));
                }
                if !self.unused(id) {
                    let p = choose|p: Position| self.inside(p) && self.id_at(p) == id;
                    let r = p.row as int;
                    let c = p.column as int;
                    assert(r * width + c < height * width) by (nonlinear_arith)
                        requires
                            0 <= r < height,
                            0 <= c < width,
                    ;
                    assert(ids@[r * width + c] == id);
                }
            }
        }
        ids
    }

    /// The greatest identifier in use; zero in a universe without cells.
    pub fn get_max_id(&self) -> (max: usize)
        requires
            self.wf(),
        ensures
            forall|p: Position| self.inside(p) ==> self.id_at(p) <= max,
            max == 0 || !self.unused(max),
    {
        let entries = self.get_entries();
        let mut max: usize = 0;
        let mut i: usize = 0;
        while i < entries.len()
            invariant
                i <= entries.len(),
                forall|k: int| 0 <= k < i ==> (#[trigger] entries@[k]).1 <= max,
                max == 0 || exists|k: int| 0 <= k < i && (#[trigger] entries@[k]).1 == max,
            decreases entries.len() - i,
        {
            if entries[i].1 > max {
                max = entries[i].1;
            }
            i += 1;
        }
        proof {
            assert forall|p: Position| self.inside(p) implies self.id_at(p) <= max by {
                let k = choose|k: int| 0 <= k < entries@.len() && (#[trigger] entries@[k]).0 == p;
                assert(entries@[k].1 <= max);
            }
            if max != 0 {
                let k = choose|k: int| 0 <= k < i && (#[trigger] entries@[k]).1 == max;
                assert(self.inside(entries@[k].0));
            }
        }
        max
    }

    /// The least identifier that no cell carries.
    pub fn get_next_available_id(&self) -> (id: usize)
        requires
            self.wf(),
        ensures
            self.unused(id),
            forall|smaller: usize| smaller < id ==> !self.unused(smaller),
            id <= self.rows() * self.columns(),
    {
        let entries = self.get_entries();
        let height = self.get_height();
        let width = self.get_width();
        let size: usize = height * width;
        let mut in_use: Vec<bool> = vec![false; size + 1];
        proof {
            lemma_count_none(in_use@);
        }
        let mut i: usize = 0;
        let ghost cells = self.rows() * self.columns();
        proof {
            lemma_entry_count(self, entries@);
        }
        while i < entries.len()
            invariant
                i <= entries.len() <= size,
                in_use@.len() == size + 1,
                count_set(in_use@) <= i,
                forall|id: int|
                    0 <= id <= size ==> (#[trigger] in_use@[id] <==> exists|k: int|
                        0 <= k < i && (#[trigger] entries@[k]).1 == id),
            decreases entries.len() - i,
        {
            let id: usize = entries[i].1;
            let ghost before = in_use@;
            if id <= size {
                proof {
                    lemma_count_one_more(before, id as int);
                }
                in_use[id] = true;
            }
            proof {
                assert forall|other: int| 0 <= other <= size implies (#[trigger] in_use@[other]
                    <==> exists|k: int| 0 <= k < i + 1 && (#[trigger] entries@[k]).1 == other) by {
                    if before[other] {
                        let k = choose|k: int| 0 <= k < i && (#[trigger] entries@[k]).1 == other;
                        assert(entries@[k].1 == other);
                    }
                    if other == id {
                        assert(entries@[i as int].1 == other);
                    }
                    if exists|k: int| 0 <= k < i + 1 && (#[trigger] entries@[k]).1 == other {
                        let k = choose|k: int|
                            0 <= k < i + 1 && (#[trigger] entries@[k]).1 == other;
                        if k < i {
                            assert(before[other]);
                        }
                    }
                }
            }
            i += 1;
        }
        let mut id: usize = 0;
        while id <= size
            invariant
                id <= size + 1,
                in_use@.len() == size + 1,
                size < usize::MAX,
                size == self.rows() * self.columns(),
                count_set(in_use@) <= size,
                forall|smaller: int| 0 <= smaller < id ==> in_use@[smaller],
                forall|k: int|
                    0 <= k < entries@.len() ==> self.inside((#[trigger] entries@[k]).0)
                        && entries@[k].1 == self.id_at(entries@[k].0),
                forall|p: Position|
                    self.inside(p) ==> exists|k: int|
                        0 <= k < entries@.len() && (#[trigger] entries@[k]).0 == p,
                forall|id: int|
                    0 <= id <= size ==> (#[trigger] in_use@[id] <==> exists|k: int|
                        0 <= k < entries@.len() && (#[trigger] entries@[k]).1 == id),
            decreases size + 1 - id,
        {
            if !in_use[id] {
                proof {
                    assert forall|p: Position| self.inside(p) implies self.id_at(p) != id by {
                        let k = choose|k: int|
                            0 <= k < entries@.len() && (#[trigger] entries@[k]).0 == p;
                        if entries@[k].1 == id {
                            assert(in_use@[id as int]);
                        }
                    }
                    assert forall|smaller: usize| smaller < id implies !self.unused(smaller) by {
                        assert(in_use@[smaller as int]);
                        let k = choose|k: int|
                            0 <= k < entries@.len() && (#[trigger] entries@[k]).1 == smaller;
                        assert(self.inside(entries@[k].0));
                    }
                }
                return id;
            }
            id += 1;
        }
        proof {
            lemma_count_all(in_use@);
            assert(false);
        }
        size
    }
}

/// A position is in the group of an identifier where an entry holds the two
/// together.
proof fn lemma_group_members(entries: Seq<(usize, Position)>, id: usize)
    ensures
        forall|p: Position|
            group_of(entries, id).contains(p) <==> exists|k: int|
                0 <= k < entries.len() && (#[trigger] entries[k]).0 == id && entries[k].1 == p,
    decreases entries.len(),
{
    if entries.len() > 0 {
        let rest = entries.drop_last();
        lemma_group_members(rest, id);
        let last = entries.last();
        if last.0 == id {
            assert(group_of(entries, id) == group_of(rest, id).push(last.1));
            lemma_push_contains(group_of(rest, id), last.1);
        } else {
            assert(group_of(entries, id) == group_of(rest, id));
        }
        assert forall|p: Position|
            group_of(entries, id).contains(p) <==> exists|k: int|
                0 <= k < entries.len() && (#[trigger] entries[k]).0 == id && entries[k].1 == p by {
            if group_of(rest, id).contains(p) {
                let k = choose|k: int|
                    0 <= k < rest.len() && (#[trigger] rest[k]).0 == id && rest[k].1 == p;
                assert(entries[k].0 == id && entries[k].1 == p);
            }
            if last.0 == id && p == last.1 {
                assert(entries[entries.len() - 1].0 == id && entries[entries.len() - 1].1 == p);
            }
            if exists|k: int|
                0 <= k < entries.len() && (#[trigger] entries[k]).0 == id && entries[k].1 == p {
                let k = choose|k: int|
                    0 <= k < entries.len() && (#[trigger] entries[k]).0 == id && entries[k].1 == p;
                if k < rest.len() {
                    assert(rest[k].0 == id && rest[k].1 == p);
                }
            }
        }
    }
}

impl Universe {
    /// Every galaxy is connected and symmetric.
    pub open spec fn sound(&self) -> bool {
        forall|p: Position|
            self.inside(p) ==> connected(#[trigger] self.galaxy_at(p)) && symmetric(
                self.galaxy_at(p),
            )
    }

    /// The universe has the same galaxies as `other`.
    pub open spec fn same_as(&self, other: &Universe) -> bool {
        &&& self.same_size(other)
        &&& forall|q: Position| self.inside(q) ==> self.id_at(q) == other.id_at(q)
    }

    /// What the galaxies are after the cell `p` got an identifier that no cell
    /// carried: `p` is a galaxy of its own, and the others are what they were,
    /// without `p`.
    pub proof fn lemma_detached(&self, before: &Universe, p: Position)
        requires
            self.is_update_of(before, p, self.id_at(p)),
            before.unused(self.id_at(p)),
            before.inside(p),
        ensures
            self.galaxy_at(p) == set![p],
            forall|q: Position|
                self.inside(q) && q != p ==> #[trigger] self.galaxy_at(q) == before.galaxy_at(
                    q,
                ).remove(p),
    {
        assert(self.galaxy_at(p) =~= set![p]);
        assert forall|q: Position| self.inside(q) && q != p implies #[trigger] self.galaxy_at(q)
            == before.galaxy_at(q).remove(p) by {
            assert(self.galaxy_at(q) =~= before.galaxy_at(q).remove(p));
        }
    }

    /// What the galaxies are after the cell `p2`, a galaxy of its own, got the
    /// identifier of the cell `p1`: the galaxy of `p1` has `p2` as well, and the
    /// others are what they were.
    pub proof fn lemma_joined(&self, before: &Universe, p1: Position, p2: Position)
        requires
            self.is_update_of(before, p2, before.id_at(p1)),
            before.inside(p1),
            before.inside(p2),
            before.galaxy_at(p2) == set![p2],
            p1 != p2,
        ensures
            forall|q: Position|
                self.inside(q) ==> #[trigger] self.galaxy_at(q) == (if before.galaxy_at(
                    p1,
                ).contains(q) || q == p2 {
                    before.galaxy_at(p1).insert(p2)
                } else {
                    before.galaxy_at(q)
                }),
    {
        assert(before.galaxy_at(p2).contains(p2));
        assert(!before.galaxy_at(p2).contains(p1));
        assert forall|q: Position| self.inside(q) implies #[trigger] self.galaxy_at(q) == (
        if before.galaxy_at(p1).contains(q) || q == p2 {
            before.galaxy_at(p1).insert(p2)
        } else {
            before.galaxy_at(q)
        }) by {
            if before.galaxy_at(p1).contains(q) || q == p2 {
                assert(self.galaxy_at(q) =~= before.galaxy_at(p1).insert(p2));
            } else {
                assert(!before.galaxy_at(p2).contains(q));
                assert(self.galaxy_at(q) =~= before.galaxy_at(q));
            }
        }
    }

    /// Makes `p` a galaxy of its own: gives it the least identifier that no cell
    /// carries.
    pub fn remove_all_neighbours(&mut self, p: &Position)
        requires
            old(self).wf(),
            old(self).inside(*p),
        ensures
            final(self).wf(),
            final(self).is_update_of(old(self), *p, final(self).id_at(*p)),
            old(self).unused(final(self).id_at(*p)),
            final(self).galaxy_at(*p) == set![*p],
            forall|q: Position|
                final(self).inside(q) && q != *p ==> #[trigger] final(self).galaxy_at(q) == old(
                    self,
                ).galaxy_at(q).remove(*p),
    {
        let id = self.get_next_available_id();
        self.set_id(p, id);
        proof {
            self.lemma_detached(old(self), *p);
        }
    }

    /// Joins `p2` to the galaxy of `p1`, and so takes it out of the galaxy it was
    /// in. Galaxies need not stay valid.
    pub fn make_neighbours(&mut self, p1: &Position, p2: &Position)
        requires
            old(self).wf(),
            old(self).inside(*p1),
            old(self).inside(*p2),
        ensures
            final(self).wf(),
            final(self).is_update_of(old(self), *p2, old(self).id_at(*p1)),
    {
        let id = self.get_id(p1);
        self.set_id(p2, id);
    }

    /// The neighbours of `p` within the universe, in the order up, down, left,
    /// right.
    pub fn adjacent_positions(&self, p: &Position) -> (adjacent: Vec<Position>)
        requires
            self.wf(),
            self.inside(*p),
        ensures
            forall|q: Position| adjacent@.contains(q) <==> p.adjacent_to(q) && self.inside(q),
            adjacent@.no_duplicates(),
            in_turn(*p, adjacent@),
    {
        let mut adjacent: Vec<Position> = Vec::with_capacity(4);
        let height = self.get_height();
        let width = self.get_width();
        if p.row > 0 {
            adjacent.push(p.up());
        }
        if (p.row as usize) < height - 1 {
            adjacent.push(p.down());
        }
        if p.column > 0 {
            adjacent.push(p.left());
        }
        if (p.column as usize) < width - 1 {
            adjacent.push(p.right());
        }
        proof {
            let s = adjacent@;
            assert forall|q: Position| s.contains(q) <==> p.adjacent_to(q) && self.inside(q) by {
                if s.contains(q) {
                    let k = choose|k: int| 0 <= k < s.len() && s[k] == q;
                    assert(s[k] == q);
                }
                if p.adjacent_to(q) && self.inside(q) {
                    assert((s.len() > 0 && s[0] == q) || (s.len() > 1 && s[1] == q) || (s.len() > 2
                        && s[2] == q) || (s.len() > 3 && s[3] == q));
                }
            }
        }
        adjacent
    }

    /// The neighbours of `p` within the universe that belong to another galaxy,
    /// in the order up, down, left, right.
    pub fn get_adjacent_non_neighbours(&self, p: &Position) -> (others: Vec<Position>)
        requires
            self.wf(),
            self.inside(*p),
        ensures
            forall|q: Position|
                others@.contains(q) <==> p.adjacent_to(q) && self.inside(q) && self.id_at(q)
                    != self.id_at(*p),
            in_turn(*p, others@),
    {
        let adjacent = self.adjacent_positions(p);
        let mut others: Vec<Position> = Vec::with_capacity(4);
        let mut i: usize = 0;
        while i < adjacent.len()
            invariant
                self.wf(),
                self.inside(*p),
                i <= adjacent.len(),
                in_turn(*p, adjacent@),
                in_turn(*p, others@),
                forall|k: int, j: int|
                    0 <= k < others@.len() && i <= j < adjacent@.len() ==> p.turn_of(
                        #[trigger] others@[k],
                    ) < p.turn_of(#[trigger] adjacent@[j]),
                forall|q: Position| adjacent@.contains(q) <==> p.adjacent_to(q) && self.inside(q),
                forall|q: Position|
                    #![trigger others@.contains(q)]
                    others@.contains(q) <==> adjacent@.subrange(0, i as int).contains(q)
                        && self.id_at(q) != self.id_at(*p),
            decreases adjacent.len() - i,
        {
            let q = adjacent[i];
            proof {
                assert(adjacent@.contains(q));
                lemma_prefix_contains(adjacent@, i as int);
                lemma_push_contains(others@, q);
            }
            if !self.are_neighbours(p, &q) {
                others.push(q);
            }
            i += 1;
        }
        assert(adjacent@.subrange(0, adjacent@.len() as int) =~= adjacent@);
        others
    }

    /// The neighbours of `p` within the universe that belong to another galaxy,
    /// in the order up, down, left, right: another name for
    /// `get_adjacent_non_neighbours`.
    pub fn adjacent_non_neighbours(&self, p: &Position) -> (others: Vec<Position>)
        requires
            self.wf(),
            self.inside(*p),
        ensures
            forall|q: Position|
                others@.contains(q) <==> p.adjacent_to(q) && self.inside(q) && self.id_at(q)
                    != self.id_at(*p),
            in_turn(*p, others@),
    {
        self.get_adjacent_non_neighbours(p)
    }

    /// The neighbours of `position` that belong to the same galaxy, in the
    /// order up, down, left, right.
    pub fn get_neighbours(&self, position: &Position) -> (neighbours: Vec<Position>)
        requires
            self.wf(),
            self.inside(*position),
        ensures
            forall|q: Position|
                neighbours@.contains(q) <==> position.adjacent_to(q) && self.inside(q)
                    && self.id_at(q) == self.id_at(*position),
            in_turn(*position, neighbours@),
    {
        let adjacent = position.adjacent();
        let mut neighbours: Vec<Position> = Vec::with_capacity(4);
        let mut i: usize = 0;
        while i < adjacent.len()
            invariant
                self.wf(),
                self.inside(*position),
                i <= adjacent.len(),
                in_turn(*position, adjacent@),
                in_turn(*position, neighbours@),
                forall|k: int, j: int|
                    0 <= k < neighbours@.len() && i <= j < adjacent@.len() ==> position.turn_of(
                        #[trigger] neighbours@[k],
                    ) < position.turn_of(#[trigger] adjacent@[j]),
                forall|q: Position| #[trigger] adjacent@.contains(q) <==> position.adjacent_to(q),
                forall|q: Position|
                    #![trigger neighbours@.contains(q)]
                    neighbours@.contains(q) <==> adjacent@.subrange(0, i as int).contains(q)
                        && self.inside(q) && self.id_at(q) == self.id_at(*position),
            decreases adjacent.len() - i,
        {
            let q = adjacent[i];
            proof {
                lemma_prefix_contains(adjacent@, i as int);
                lemma_push_contains(neighbours@, q);
            }
            if self.are_neighbours(position, &q) {
                neighbours.push(q);
            }
            i += 1;
        }
        assert(adjacent@.subrange(0, adjacent@.len() as int) =~= adjacent@);
        neighbours
    }

    /// The galaxy that the cell `p` belongs to.
    pub fn get_galaxy(&self, p: &Position) -> (galaxy: Galaxy)
        requires
            self.wf(),
            self.inside(*p),
        ensures
            galaxy.wf(),
            galaxy@ == self.galaxy_at(*p),
    {
        let id = self.get_id(p);
        let entries = self.get_entries();
        let mut galaxy = Galaxy::new();
        let mut i: usize = 0;
        while i < entries.len()
            invariant
                self.wf(),
                i <= entries.len(),
                galaxy.wf(),
                forall|k: int|
                    0 <= k < entries@.len() ==> self.inside((#[trigger] entries@[k]).0)
                        && entries@[k].1 == self.id_at(entries@[k].0),
                forall|q: Position|
                    #![trigger galaxy@.contains(q)]
                    galaxy@.contains(q) <==> self.id_at(q) == id && exists|k: int|
                        0 <= k < i && (#[trigger] entries@[k]).0 == q,
            decreases entries.len() - i,
        {
            let (q, other) = entries[i];
            let ghost before = galaxy@;
            if other == id {
                galaxy.add_position(q);
            }
            proof {
                assert forall|x: Position|
                    #![trigger galaxy@.contains(x)]
                    galaxy@.contains(x) <==> self.id_at(x) == id && exists|k: int|
                        0 <= k < i + 1 && (#[trigger] entries@[k]).0 == x by {
                    if before.contains(x) {
                        let k = choose|k: int| 0 <= k < i && (#[trigger] entries@[k]).0 == x;
                        assert(entries@[k].0 == x);
                    }
                    if x == q {
                        assert(entries@[i as int].0 == x);
                    }
                    if self.id_at(x) == id && exists|k: int|
                        0 <= k < i + 1 && (#[trigger] entries@[k]).0 == x {
                        let k = choose|k: int| 0 <= k < i + 1 && (#[trigger] entries@[k]).0 == x;
                        if k < i {
                            assert(before.contains(x));
                        }
                    }
                }
            }
            i += 1;
        }
        proof {
            assert forall|q: Position| galaxy@.contains(q) <==> self.galaxy_at(*p).contains(q) by {
                if galaxy@.contains(q) {
                    let k = choose|k: int| 0 <= k < i && (#[trigger] entries@[k]).0 == q;
                    assert(self.inside(entries@[k].0));
                }
            }
            assert(galaxy@ =~= self.galaxy_at(*p));
        }
        galaxy
    }

    /// `cells` is one of the galaxies of the universe.
    pub open spec fn is_galaxy(&self, cells: Set<Position>) -> bool {
        exists|p: Position| self.inside(p) && #[trigger] self.galaxy_at(p) == cells
    }

    /// `pairs` lists every cell behind its identifier, so that the group of an
    /// identifier holds the cells that carry it.
    #[verifier::opaque]
    pub closed spec fn sorted_out(&self, pairs: Seq<(usize, Position)>) -> bool {
        &&& forall|id: usize, q: Position|
            group_of(pairs, id).contains(q) <==> self.cells_of(id).contains(q)
        &&& forall|k: int|
            0 <= k < pairs.len() ==> self.inside((#[trigger] pairs[k]).1) && pairs[k].0
                == self.id_at(pairs[k].1)
        &&& forall|p: Position|
            self.inside(p) ==> exists|k: int| 0 <= k < pairs.len() && (#[trigger] pairs[k]).1 == p
    }

    /// Where every identifier that occurs has its group, every galaxy has.
    proof fn lemma_galaxy_listed(
        &self,
        pairs: Seq<(usize, Position)>,
        groups: Seq<(usize, Vec<Position>)>,
        p: Position,
    ) -> (i: int)
        requires
            self.wf(),
            self.sorted_out(pairs),
            self.inside(p),
            forall|i: int| 0 <= i < groups.len() ==> is_group(pairs, #[trigger] groups[i]),
            forall|k: int| 0 <= k < pairs.len() ==> has_group(groups, (#[trigger] pairs[k]).0),
        ensures
            0 <= i < groups.len(),
            groups[i].1@.to_set() == self.galaxy_at(p),
    {
        reveal(Universe::sorted_out);
        let k = choose|k: int| 0 <= k < pairs.len() && (#[trigger] pairs[k]).1 == p;
        let id = pairs[k].0;
        assert(has_group(groups, pairs[k].0));
        let i = choose|i: int| 0 <= i < groups.len() && (#[trigger] groups[i]).0 == id;
        assert(is_group(pairs, groups[i]));
        assert forall|q: Position|
            groups[i].1@.to_set().contains(q) <==> self.galaxy_at(p).contains(q) by {
            assert(group_of(pairs, id).contains(q) <==> self.cells_of(id).contains(q));
        }
        assert(groups[i].1@.to_set() =~= self.galaxy_at(p));
        i
    }

    /// The cells of the universe, row by row, each behind its identifier.
    fn id_pairs(&self) -> (pairs: Vec<(usize, Position)>)
        requires
            self.wf(),
        ensures
            self.sorted_out(pairs@),
    {
        let entries = self.get_entries();
        let mut pairs: Vec<(usize, Position)> = Vec::with_capacity(entries.len());
        let mut i: usize = 0;
        while i < entries.len()
            invariant
                i <= entries.len(),
                pairs@.len() == i,
                forall|k: int|
                    0 <= k < i ==> (#[trigger] pairs@[k]).0 == entries@[k].1 && pairs@[k].1
                        == entries@[k].0,
            decreases entries.len() - i,
        {
            pairs.push((entries[i].1, entries[i].0));
            i += 1;
        }
        proof {
            reveal(Universe::sorted_out);
            let listed = pairs@;
            assert forall|k: int| 0 <= k < listed.len() implies self.inside(
                (#[trigger] listed[k]).1,
            ) && listed[k].0 == self.id_at(listed[k].1) by {
                assert(self.inside(entries@[k].0));
            }
            assert forall|p: Position| self.inside(p) implies exists|k: int|
                0 <= k < listed.len() && (#[trigger] listed[k]).1 == p by {
                let k = choose|k: int| 0 <= k < entries@.len() && (#[trigger] entries@[k]).0 == p;
                assert(listed[k].1 == p);
            }
            assert forall|id: usize, q: Position|
                group_of(listed, id).contains(q) <==> self.cells_of(id).contains(q) by {
                lemma_group_members(listed, id);
                if group_of(listed, id).contains(q) {
                    let k = choose|k: int|
                        0 <= k < listed.len() && (#[trigger] listed[k]).0 == id && listed[k].1
                            == q;
                    assert(self.inside(listed[k].1));
                }
                if self.cells_of(id).contains(q) {
                    let k = choose|k: int| 0 <= k < listed.len() && (#[trigger] listed[k]).1 == q;
                    assert(listed[k].0 == id && listed[k].1 == q);
                }
            }
        }
        pairs
    }

    /// A group of the cells by identifier holds the cells of a galaxy.
    proof fn lemma_group_is_galaxy(
        &self,
        pairs: Seq<(usize, Position)>,
        group: (usize, Vec<Position>),
    )
        requires
            self.wf(),
            is_group(pairs, group),
            self.sorted_out(pairs),
        ensures
            self.is_galaxy(group.1@.to_set()),
            forall|m: int| 0 <= m < group.1@.len() ==> (#[trigger] group.1@[m]).in_range(),
    {
        reveal(Universe::sorted_out);
        let k = choose|k: int| 0 <= k < pairs.len() && (#[trigger] pairs[k]).0 == group.0;
        let p = pairs[k].1;
        let id = pairs[k].0;
        let cells = group.1@;
        assert(self.inside(p));
        assert forall|q: Position| cells.to_set().contains(q) <==> self.galaxy_at(p).contains(
            q,
        ) by {
            assert(group_of(pairs, id).contains(q) <==> self.cells_of(id).contains(q));
        }
        assert(cells.to_set() =~= self.galaxy_at(p));
        assert forall|m: int| 0 <= m < cells.len() implies (#[trigger] cells[m]).in_range() by {
            assert(cells.contains(cells[m]));
            assert(self.cells_of(id).contains(cells[m]));
        }
    }

    /// The galaxies of the universe, in no particular order: the cells are
    /// grouped by their identifier.
    pub fn get_galaxies(&self) -> (galaxies: Vec<Galaxy>)
        requires
            self.wf(),
        ensures
            forall|i: int|
                0 <= i < galaxies@.len() ==> (#[trigger] galaxies@[i]).wf() && self.is_galaxy(
                    galaxies@[i]@,
                ),
            forall|p: Position|
                self.inside(p) ==> exists|i: int|
                    0 <= i < galaxies@.len() && (#[trigger] galaxies@[i])@ == self.galaxy_at(p),
            forall|i: int, j: int|
                0 <= i < j < galaxies@.len() ==> (#[trigger] galaxies@[i])@ != (
                #[trigger] galaxies@[j])@,
    {
        let pairs = self.id_pairs();
        let ghost listed = pairs@;
        let groups = group_by_id(pairs);
        let mut galaxies: Vec<Galaxy> = Vec::with_capacity(groups.len());
        let mut g: usize = 0;
        while g < groups.len()
            invariant
                self.wf(),
                g <= groups.len(),
                galaxies@.len() == g,
                self.sorted_out(listed),
                forall|i: int| 0 <= i < groups@.len() ==> is_group(listed, #[trigger] groups@[i]),
                forall|i: int|
                    0 <= i < g ==> (#[trigger] galaxies@[i]).wf() && galaxies@[i]@
                        == groups@[i].1@.to_set() && self.is_galaxy(galaxies@[i]@),
            decreases groups.len() - g,
        {
            let group = &groups[g].1;
            proof {
                assert(is_group(listed, groups@[g as int]));
                self.lemma_group_is_galaxy(listed, groups@[g as int]);
            }
            galaxies.push(Galaxy::from_positions(group));
            g += 1;
        }
        proof {
            assert forall|p: Position| self.inside(p) implies exists|i: int|
                0 <= i < galaxies@.len() && (#[trigger] galaxies@[i])@ == self.galaxy_at(p) by {
                let i = self.lemma_galaxy_listed(listed, groups@, p);
                assert(galaxies@[i]@ == self.galaxy_at(p));
            }
            assert forall|i: int, j: int| 0 <= i < j < galaxies@.len() implies (
            #[trigger] galaxies@[i])@ != (#[trigger] galaxies@[j])@ by {
                assert(is_group(listed, groups@[i]) && is_group(listed, groups@[j]));
                assert(groups@[i].0 != groups@[j].0);
                self.lemma_groups_differ(listed, groups@[i], groups@[j]);
            }
        }
        galaxies
    }

    /// The groups of two identifiers hold different cells.
    proof fn lemma_groups_differ(
        &self,
        pairs: Seq<(usize, Position)>,
        first: (usize, Vec<Position>),
        second: (usize, Vec<Position>),
    )
        requires
            self.wf(),
            is_group(pairs, first),
            is_group(pairs, second),
            first.0 != second.0,
            self.sorted_out(pairs),
        ensures
            first.1@.to_set() != second.1@.to_set(),
    {
        reveal(Universe::sorted_out);
        let a = choose|k: int| 0 <= k < pairs.len() && (#[trigger] pairs[k]).0 == first.0;
        let p = pairs[a].1;
        assert(self.inside(p));
        assert(self.cells_of(first.0).contains(p));
        assert(group_of(pairs, first.0).contains(p));
        assert(!self.cells_of(second.0).contains(p));
        assert(!group_of(pairs, second.0).contains(p));
        assert(first.1@.to_set().contains(p));
        assert(!second.1@.to_set().contains(p));
    }

    /// Whether every galaxy is valid.
    pub fn is_valid(&self) -> (b: bool)
        requires
            self.wf(),
        ensures
            b == self.valid(),
    {
        let galaxies = self.get_galaxies();
        let mut i: usize = 0;
        while i < galaxies.len()
            invariant
                i <= galaxies.len(),
                forall|k: int|
                    0 <= k < galaxies@.len() ==> (#[trigger] galaxies@[k]).wf() && self.is_galaxy(
                        galaxies@[k]@,
                    ),
                forall|k: int| 0 <= k < i ==> valid_shape((#[trigger] galaxies@[k])@),
            decreases galaxies.len() - i,
        {
            if !galaxies[i].is_valid() {
                proof {
                    assert(self.is_galaxy(galaxies@[i as int]@));
                    let p = choose|p: Position|
                        self.inside(p) && #[trigger] self.galaxy_at(p) == galaxies@[i as int]@;
                    assert(!valid_shape(self.galaxy_at(p)));
                }
                return false;
            }
            i += 1;
        }
        proof {
            assert forall|p: Position| self.inside(p) implies valid_shape(
                #[trigger] self.galaxy_at(p),
            ) by {
                let k = choose|k: int|
                    0 <= k < galaxies@.len() && (#[trigger] galaxies@[k])@ == self.galaxy_at(p);
                assert(valid_shape(galaxies@[k]@));
            }
        }
        true
    }
}

impl Universe {
    /// The state while the galaxy `galaxy` of `before` is taken apart: the cells
    /// in `rest` still form one galaxy, the other cells of `galaxy` are galaxies
    /// of their own, and the galaxies of all other cells are as they were. The
    /// cells in `rest` and the cells outside `galaxy` carry the identifiers
    /// that they carried.
    pub open spec fn split_state(
        &self,
        before: &Universe,
        galaxy: Set<Position>,
        rest: Set<Position>,
    ) -> bool {
        &&& self.wf()
        &&& self.same_size(before)
        &&& rest.subset_of(galaxy)
        &&& forall|q: Position| rest.contains(q) ==> #[trigger] self.galaxy_at(q) == rest
        &&& forall|q: Position|
            galaxy.contains(q) && !rest.contains(q) ==> #[trigger] self.galaxy_at(q) == set![q]
        &&& forall|q: Position|
            self.inside(q) && !galaxy.contains(q) ==> #[trigger] self.galaxy_at(q)
                == before.galaxy_at(q)
        &&& forall|q: Position|
            self.inside(q) && (!galaxy.contains(q) || rest.contains(q)) ==> #[trigger] self.id_at(
                q,
            ) == before.id_at(q)
    }

    /// `galaxy` is a galaxy of the universe, seen from each of its cells.
    pub open spec fn owns(&self, galaxy: Set<Position>) -> bool {
        forall|q: Position|
            #![trigger galaxy.contains(q)]
            #![trigger self.galaxy_at(q)]
            galaxy.contains(q) ==> self.inside(q) && self.galaxy_at(q) == galaxy
    }

    /// A galaxy of the universe is one, seen from each of its cells.
    pub proof fn lemma_owns(&self, galaxy: Set<Position>)
        requires
            self.is_galaxy(galaxy),
        ensures
            self.owns(galaxy),
    {
        let p = choose|p: Position| self.inside(p) && #[trigger] self.galaxy_at(p) == galaxy;
        assert forall|q: Position|
            #![trigger galaxy.contains(q)]
            #![trigger self.galaxy_at(q)]
            galaxy.contains(q) implies self.inside(q) && self.galaxy_at(q) == galaxy by {
            assert(self.galaxy_at(p).contains(q));
            assert(self.galaxy_at(q) =~= galaxy);
        }
    }

    /// Taking one more cell of the galaxy out keeps the state of the taking
    /// apart.
    proof fn lemma_detach_step(
        &self,
        middle: &Universe,
        before: &Universe,
        galaxy: Set<Position>,
        rest: Set<Position>,
        p: Position,
    )
        requires
            middle.split_state(before, galaxy, rest),
            before.owns(galaxy),
            galaxy.contains(p),
            self.wf(),
            self.is_update_of(middle, p, self.id_at(p)),
            middle.unused(self.id_at(p)),
        ensures
            self.split_state(before, galaxy, rest.remove(p)),
    {
        assert(before.inside(p));
        self.lemma_detached(middle, p);
        let less = rest.remove(p);
        assert forall|q: Position| less.contains(q) implies #[trigger] self.galaxy_at(q)
            == less by {
            assert(middle.galaxy_at(q) == rest);
        }
        assert forall|q: Position| galaxy.contains(q) && !less.contains(q) implies #[trigger] self.galaxy_at(
            q,
        ) == set![q] by {
            if q != p {
                assert(middle.galaxy_at(q) == set![q]);
                assert(self.galaxy_at(q) == middle.galaxy_at(q).remove(p));
                assert(set![q].remove(p) =~= set![q]);
            }
        }
        assert forall|q: Position| self.inside(q) && !galaxy.contains(q) implies #[trigger] self.galaxy_at(
            q,
        ) == before.galaxy_at(q) by {
            assert(middle.galaxy_at(q) == before.galaxy_at(q));
            assert(before.galaxy_at(p) == galaxy);
            assert(!before.galaxy_at(q).contains(p)) by {
                if before.galaxy_at(q).contains(p) {
                    assert(before.galaxy_at(p).contains(q));
                }
            }
            assert(before.galaxy_at(q).remove(p) =~= before.galaxy_at(q));
        }
    }

    /// Takes the given cells out of the galaxy `galaxy` and makes each a galaxy
    /// of its own. Where that leaves the rest of the galaxy asymmetric, the
    /// mirror of the cell is taken out too; where the rest is still not valid,
    /// all of it is broken up into single cells. The cells that are left
    /// together and the cells of other galaxies keep their identifiers.
    pub fn remove_positions_from_galaxy(
        &mut self,
        galaxy: &Galaxy,
        positions_to_remove: &Vec<Position>,
    )
        requires
            old(self).wf(),
            galaxy.wf(),
            old(self).is_galaxy(galaxy@),
            symmetric(galaxy@),
            forall|i: int|
                0 <= i < positions_to_remove.len() ==> galaxy@.contains(
                    #[trigger] positions_to_remove[i],
                ),
        ensures
            final(self).wf(),
            final(self).same_size(old(self)),
            forall|q: Position|
                final(self).inside(q) && !galaxy@.contains(q) ==> #[trigger] final(self).galaxy_at(q) == old(self).galaxy_at(q),
            forall|q: Position|
                galaxy@.contains(q) ==> (#[trigger] final(self).galaxy_at(q)).subset_of(galaxy@)
                    && (valid_shape(final(self).galaxy_at(q)) || final(self).galaxy_at(q)
                    == galaxy@),
            forall|i: int|
                0 <= i < positions_to_remove.len() ==> final(self).galaxy_at(
                    #[trigger] positions_to_remove[i],
                ) == set![positions_to_remove[i]],
            forall|q: Position|
                galaxy@.contains(q) ==> #[trigger] final(self).galaxy_at(q) == (if rest_of(
                    galaxy@,
                    positions_to_remove@,
                ).contains(q) {
                    rest_of(galaxy@, positions_to_remove@)
                } else {
                    set![q]
                }),
            old(self).valid() ==> final(self).valid(),
            forall|q: Position|
                final(self).inside(q) && (!galaxy@.contains(q) || rest_of(
                    galaxy@,
                    positions_to_remove@,
                ).contains(q)) ==> #[trigger] final(self).id_at(q) == old(self).id_at(q),
    {
        let ghost before = *self;
        let ghost whole = galaxy@;
        let mut g = galaxy.copy();
        let center = galaxy.center();
        proof {
            before.lemma_owns(whole);
        }
        let mut k: usize = 0;
        while k < positions_to_remove.len()
            invariant
                k <= positions_to_remove.len(),
                galaxy.wf(),
                before == *old(self),
                whole == galaxy@,
                symmetric(whole),
                center == center_of(whole),
                -2 * COORDINATE_LIMIT <= center.row <= 2 * COORDINATE_LIMIT,
                -2 * COORDINATE_LIMIT <= center.column <= 2 * COORDINATE_LIMIT,
                before.owns(whole),
                before.wf(),
                g.wf(),
                self.split_state(&before, whole, g@),
                k == 0 ==> g@ == whole,
                k > 0 ==> g@.is_empty() || valid_shape(g@),
                g@ == rest_of(whole, positions_to_remove@.subrange(0, k as int)),
                forall|i: int|
                    0 <= i < positions_to_remove.len() ==> whole.contains(
                        #[trigger] positions_to_remove[i],
                    ),
                forall|i: int| 0 <= i < k ==> !g@.contains(#[trigger] positions_to_remove[i]),
            decreases positions_to_remove.len() - k,
        {
            let p = positions_to_remove[k];
            assert(whole.contains(p));
            let ghost middle = *self;
            let ghost rest_before = g@;
            proof {
                let next = positions_to_remove@.subrange(0, k + 1);
                assert(next.drop_last() =~= positions_to_remove@.subrange(0, k as int));
                assert(next.last() == p);
            }
            self.remove_all_neighbours(&p);
            proof {
                self.lemma_detach_step(&middle, &before, whole, g@, p);
            }
            g.remove_position(&p);
            if !g.is_symmetric() {
                let p2 = center.mirror_position(&p);
                assert(whole.contains(p2));
                let ghost middle = *self;
                let ghost rest = g@;
                self.remove_all_neighbours(&p2);
                proof {
                    self.lemma_detach_step(&middle, &before, whole, rest, p2);
                }
                g.remove_position(&p2);
            }
            proof {
                assert(g@ == (if symmetric(rest_before.remove(p)) {
                    rest_before.remove(p)
                } else {
                    rest_before.remove(p).remove(center_of(whole).mirrored(p))
                }));
            }
            if !g.is_empty_or_valid() {
                proof {
                    assert(rest_of(whole, positions_to_remove@.subrange(0, k + 1))
                        == Set::<Position>::empty());
                    lemma_rest_gone(whole, positions_to_remove@, k + 1);
                }
                let remaining = g.get_positions();
                let ghost mut rest = g@;
                proof {
                    g.lemma_elements();
                    assert(remaining@.subrange(0, remaining@.len() as int) =~= remaining@);
                    assert forall|q: Position| rest.contains(q) <==> remaining@.contains(q) by {
                        assert(remaining@.to_set().contains(q) <==> remaining@.contains(q));
                    }
                }
                let mut i: usize = 0;
                while i < remaining.len()
                    invariant
                        i <= remaining.len(),
                        before == *old(self),
                        before.owns(whole),
                        remaining@.no_duplicates(),
                        self.split_state(&before, whole, rest),
                        forall|q: Position|
                            rest.contains(q) <==> remaining@.subrange(
                                i as int,
                                remaining@.len() as int,
                            ).contains(q),
                    decreases remaining.len() - i,
                {
                    let r = remaining[i];
                    proof {
                        assert(remaining@.subrange(i as int, remaining@.len() as int)[0] == r);
                        assert(rest.contains(r));
                    }
                    let ghost middle = *self;
                    self.remove_all_neighbours(&r);
                    proof {
                        self.lemma_detach_step(&middle, &before, whole, rest, r);
                        let tail = remaining@.subrange(i as int, remaining@.len() as int);
                        let shorter = remaining@.subrange(i + 1, remaining@.len() as int);
                        assert forall|q: Position|
                            rest.remove(r).contains(q) <==> shorter.contains(q) by {
                            if rest.remove(r).contains(q) {
                                let m = choose|m: int| 0 <= m < tail.len() && tail[m] == q;
                                assert(m > 0);
                                assert(shorter[m - 1] == q);
                            }
                            if shorter.contains(q) {
                                let m = choose|m: int| 0 <= m < shorter.len() && shorter[m] == q;
                                assert(tail[m + 1] == q);
                                assert(remaining@[i + 1 + m] == q);
                            }
                        }
                        rest = rest.remove(r);
                    }
                    i += 1;
                }
                proof {
                    assert(rest =~= Set::<Position>::empty()) by {
                        assert forall|q: Position| !rest.contains(q) by {
                            assert(remaining@.subrange(
                                remaining@.len() as int,
                                remaining@.len() as int,
                            ).len() == 0);
                        }
                    }
                    assert forall|q: Position| whole.contains(q) implies (#[trigger] self.galaxy_at(
                        q,
                    )).subset_of(whole) && (valid_shape(self.galaxy_at(q)) || self.galaxy_at(q)
                        == whole) by {
                        assert(self.galaxy_at(q) == set![q]);
                        lemma_single_valid(q);
                    }
                    self.lemma_kept_valid(&before, whole);
                }
                return ;
            }
            k += 1;
        }
        proof {
            assert(positions_to_remove@.subrange(0, positions_to_remove@.len() as int)
                =~= positions_to_remove@);
            assert forall|q: Position| whole.contains(q) implies (#[trigger] self.galaxy_at(
                q,
            )).subset_of(whole) && (valid_shape(self.galaxy_at(q)) || self.galaxy_at(q)
                == whole) by {
                if g@.contains(q) {
                    assert(self.galaxy_at(q) == g@);
                } else {
                    assert(self.galaxy_at(q) == set![q]);
                    lemma_single_valid(q);
                }
            }
            self.lemma_kept_valid(&before, whole);
        }
    }

    /// Where one galaxy of a valid universe was taken apart into valid
    /// galaxies, or left as it was, and the others were left alone, the
    /// universe is valid.
    proof fn lemma_kept_valid(&self, before: &Universe, whole: Set<Position>)
        requires
            self.same_size(before),
            before.owns(whole),
            forall|q: Position|
                self.inside(q) && !whole.contains(q) ==> #[trigger] self.galaxy_at(q)
                    == before.galaxy_at(q),
            forall|q: Position|
                whole.contains(q) ==> valid_shape(#[trigger] self.galaxy_at(q)) || self.galaxy_at(
                    q,
                ) == whole,
        ensures
            before.valid() ==> self.valid(),
    {
        if before.valid() {
            assert forall|q: Position| self.inside(q) implies valid_shape(
                #[trigger] self.galaxy_at(q),
            ) by {
                assert(before.inside(q));
                assert(valid_shape(before.galaxy_at(q)));
                if whole.contains(q) {
                    assert(before.galaxy_at(q) == whole);
                }
            }
        }
    }
}

/// What is left together of a galaxy when the cell `p` is taken out of what was
/// left, `rest`: `rest` without `p`; without the mirror of `p` through the
/// center of the whole galaxy too where that is not symmetric; and nothing at
/// all where that is not valid either, for then it is broken up.
pub open spec fn rest_after(galaxy: Set<Position>, rest: Set<Position>, p: Position) -> Set<
    Position,
> {
    let without = rest.remove(p);
    let evened = if symmetric(without) {
        without
    } else {
        without.remove(center_of(galaxy).mirrored(p))
    };
    if evened.is_empty() || valid_shape(evened) {
        evened
    } else {
        Set::empty()
    }
}

/// What is left together of a galaxy when the cells of `positions` are taken
/// out of it, one after the other.
pub open spec fn rest_of(galaxy: Set<Position>, positions: Seq<Position>) -> Set<Position>
    decreases positions.len(),
{
    if positions.len() == 0 {
        galaxy
    } else {
        rest_after(galaxy, rest_of(galaxy, positions.drop_last()), positions.last())
    }
}

/// The galaxy in which the cell `q` of `galaxy` is left when the cells of
/// `taken` are taken out of `galaxy`: what is left together, or `q` alone.
pub open spec fn left_of(galaxy: Set<Position>, taken: Seq<Position>, q: Position) -> Set<
    Position,
> {
    if rest_of(galaxy, taken).contains(q) {
        rest_of(galaxy, taken)
    } else {
        set![q]
    }
}

/// Once nothing is left together, nothing is.
pub proof fn lemma_rest_gone(galaxy: Set<Position>, positions: Seq<Position>, k: int)
    requires
        0 <= k <= positions.len(),
        rest_of(galaxy, positions.subrange(0, k)) == Set::<Position>::empty(),
    ensures
        rest_of(galaxy, positions) == Set::<Position>::empty(),
    decreases positions.len() - k,
{
    if k < positions.len() {
        let next = positions.subrange(0, k + 1);
        assert(next.drop_last() =~= positions.subrange(0, k));
        let without = Set::<Position>::empty().remove(next.last());
        assert(without =~= Set::<Position>::empty());
        assert(symmetric(without));
        assert(rest_of(galaxy, next) == Set::<Position>::empty());
        lemma_rest_gone(galaxy, positions, k + 1);
    } else {
        assert(positions.subrange(0, k) =~= positions);
    }
}

/// A cell's number in a grid of `width` columns, its row times `width` plus its
/// column, belongs to that cell alone.
proof fn lemma_cell_number(width: int, r1: int, c1: int, r2: int, c2: int)
    requires
        0 <= c1 < width,
        0 <= c2 < width,
        r1 * width + c1 == r2 * width + c2,
    ensures
        r1 == r2,
        c1 == c2,
{
    if r1 < r2 {
        assert(r2 * width - r1 * width >= width) by (nonlinear_arith)
            requires
                r2 - r1 >= 1,
                width >= 0,
        ;
    }
    if r2 < r1 {
        assert(r1 * width - r2 * width >= width) by (nonlinear_arith)
            requires
                r1 - r2 >= 1,
                width >= 0,
        ;
    }
}

/// The mirrors of two neighbours are neighbours.
proof fn lemma_mirror_adjacent(center: Position, a: Position, b: Position)
    requires
        a.adjacent_to(b),
        a.in_range(),
        b.in_range(),
        -2 * COORDINATE_LIMIT <= center.row <= 2 * COORDINATE_LIMIT,
        -2 * COORDINATE_LIMIT <= center.column <= 2 * COORDINATE_LIMIT,
    ensures
        center.mirrored(a).adjacent_to(center.mirrored(b)),
        center.mirrored(center.mirrored(a)) == a,
{
}

impl Universe {
    /// All galaxies but the one of `p` are valid.
    pub open spec fn valid_but(&self, p: Position) -> bool {
        forall|q: Position|
            self.inside(q) && !self.galaxy_at(p).contains(q) ==> valid_shape(
                #[trigger] self.galaxy_at(q),
            )
    }

    /// The galaxy in which the cell `q` is left when `p2`, and `p3` if there is
    /// one, are taken out of their galaxies: each out of its own, or both out of
    /// the one that they share.
    pub open spec fn left_after(&self, p2: Position, p3: Option<Position>, q: Position) -> Set<
        Position,
    > {
        let g2 = self.galaxy_at(p2);
        match p3 {
            None => if g2.contains(q) {
                left_of(g2, seq![p2], q)
            } else {
                self.galaxy_at(q)
            },
            Some(p3) => {
                let g3 = self.galaxy_at(p3);
                if g2.contains(p3) {
                    if g2.contains(q) {
                        left_of(g2, seq![p2, p3], q)
                    } else {
                        self.galaxy_at(q)
                    }
                } else if g2.contains(q) {
                    left_of(g2, seq![p2], q)
                } else if g3.contains(q) {
                    left_of(g3, seq![p3], q)
                } else {
                    self.galaxy_at(q)
                }
            },
        }
    }

    /// The galaxies of `self` are those of `before` after `p2`, and `p3` if
    /// there is one, have been taken out of their galaxies and joined to the
    /// galaxy of `p1`.
    pub open spec fn joined_from(
        &self,
        before: &Universe,
        p1: Position,
        p2: Position,
        p3: Option<Position>,
    ) -> bool {
        let grown = match p3 {
            Some(p3) => before.galaxy_at(p1).insert(p2).insert(p3),
            None => before.galaxy_at(p1).insert(p2),
        };
        &&& self.wf()
        &&& self.same_size(before)
        &&& self.galaxy_at(p1) == grown
        &&& forall|q: Position|
            self.inside(q) && !grown.contains(q) ==> #[trigger] self.galaxy_at(q)
                == before.left_after(p2, p3, q)
    }

    /// `self` is what a step of the generator makes of `before` when it draws
    /// the cell `p1`, its neighbour `p2` in another galaxy and, where the galaxy
    /// of `p1` is not symmetric with `p2`, the cell `p3` that makes it so: the
    /// mirror of `p2` through the center of the galaxy, or a neighbour of `p2`
    /// in another galaxy than `p2`.
    pub open spec fn step_of(
        &self,
        before: &Universe,
        p1: Position,
        p2: Position,
        p3: Option<Position>,
    ) -> bool {
        let g1 = before.galaxy_at(p1);
        &&& before.inside(p1)
        &&& before.inside(p2)
        &&& p1.adjacent_to(p2)
        &&& before.id_at(p1) != before.id_at(p2)
        &&& match p3 {
            None => symmetric(g1.insert(p2)),
            Some(p3) => !symmetric(g1.insert(p2)) && before.inside(p3) && (p3 == center_of(
                g1,
            ).mirrored(p2) || (p2.adjacent_to(p3) && before.id_at(p3) != before.id_at(p2)
                && symmetric(g1.insert(p2).insert(p3)))),
        }
        &&& self.joined_from(before, p1, p2, p3)
    }

    /// A step of the generator that draws the cell `p1` and then `p2`, if
    /// anything, has nothing to join: `p1` has no neighbour in another galaxy
    /// to draw, or the galaxy of `p1` is not symmetric with its neighbour `p2`
    /// and no third cell makes it so.
    pub open spec fn idle_at(&self, p1: Position, p2: Option<Position>) -> bool {
        let g1 = self.galaxy_at(p1);
        &&& self.inside(p1)
        &&& match p2 {
            None => forall|q: Position|
                !(#[trigger] p1.adjacent_to(q) && self.inside(q) && self.id_at(q) != self.id_at(
                    p1,
                )),
            Some(p2) => {
                &&& self.inside(p2)
                &&& p1.adjacent_to(p2)
                &&& self.id_at(p1) != self.id_at(p2)
                &&& !symmetric(g1.insert(p2))
                &&& !self.inside(center_of(g1).mirrored(p2))
                &&& forall|q: Position|
                    !(#[trigger] p2.adjacent_to(q) && self.inside(q) && self.id_at(q)
                        != self.id_at(p2) && symmetric(g1.insert(p2).insert(q)))
            },
        }
    }

    /// In the universe `self`, which came from `before`, the galaxy `grown` has
    /// taken the place of the galaxy of `p1`; every other galaxy is as it was in
    /// `before` or is valid.
    pub open spec fn grew_from(&self, before: &Universe, p1: Position, grown: Set<Position>) -> bool {
        &&& self.wf()
        &&& self.same_size(before)
        &&& self.galaxy_at(p1) == grown
        &&& forall|q: Position|
            self.inside(q) && !grown.contains(q) ==> (#[trigger] self.galaxy_at(q)
                == before.galaxy_at(q) || valid_shape(self.galaxy_at(q)))
    }

    /// Where a connected and symmetric galaxy took the place of one, and every
    /// other galaxy is as it was or valid, all galaxies are connected and
    /// symmetric as before, and those that were valid still are.
    pub proof fn lemma_grew(&self, before: &Universe, p1: Position, grown: Set<Position>)
        requires
            self.grew_from(before, p1, grown),
            self.inside(p1),
            before.sound(),
            connected(grown),
            symmetric(grown),
        ensures
            self.sound(),
            before.valid() ==> self.valid_but(p1),
    {
        assert forall|q: Position| self.inside(q) implies connected(#[trigger] self.galaxy_at(q))
            && symmetric(self.galaxy_at(q)) by {
            if grown.contains(q) {
                assert(self.galaxy_at(p1).contains(q));
                assert(self.galaxy_at(q) =~= grown);
            } else {
                assert(before.inside(q));
                assert(connected(before.galaxy_at(q)) && symmetric(before.galaxy_at(q)));
            }
        }
        if before.valid() {
            assert forall|q: Position|
                self.inside(q) && !self.galaxy_at(p1).contains(q) implies valid_shape(
                #[trigger] self.galaxy_at(q),
            ) by {
                assert(before.inside(q));
                assert(valid_shape(before.galaxy_at(q)));
            }
            assert(self.valid_but(p1));
        }
    }

    /// Where all galaxies but the one of `p` are valid and that one is too, all
    /// are.
    pub proof fn lemma_all_valid(&self, p: Position)
        requires
            self.inside(p),
            self.valid_but(p),
            valid_shape(self.galaxy_at(p)),
        ensures
            self.valid(),
    {
        assert forall|q: Position| self.inside(q) implies valid_shape(
            #[trigger] self.galaxy_at(q),
        ) by {
            if self.galaxy_at(p).contains(q) {
                assert(self.galaxy_at(q) =~= self.galaxy_at(p));
            }
        }
    }

    /// A cell of the universe, drawn at random: first its row, then its column.
    pub fn random_position(&self, rng: &mut StdRng) -> (p: Position)
        requires
            self.wf(),
            self.rows() >= 1,
            self.columns() >= 1,
        ensures
            self.inside(p),
    {
        let row = random_below(rng, self.get_height());
        let column = random_below(rng, self.get_width());
        Position::at(row, column)
    }

    /// Joins the cell `p2` to the galaxy of its neighbour `p1`, after taking it
    /// out of its own galaxy in the way of `remove_positions_from_galaxy`. This
    /// is the step for a `p2` with which the galaxy of `p1` is symmetric.
    pub fn join(&mut self, p1: &Position, p2: &Position)
        requires
            old(self).wf(),
            old(self).sound(),
            old(self).inside(*p1),
            old(self).inside(*p2),
            p1.adjacent_to(*p2),
            old(self).id_at(*p1) != old(self).id_at(*p2),
            symmetric(old(self).galaxy_at(*p1).insert(*p2)),
        ensures
            final(self).grew_from(old(self), *p1, old(self).galaxy_at(*p1).insert(*p2)),
            final(self).joined_from(old(self), *p1, *p2, None),
            final(self).sound(),
            old(self).valid() ==> final(self).valid(),
    {
        let ghost before = *self;
        let ghost g1 = self.galaxy_at(*p1);
        let g2 = self.get_galaxy(p2);
        let mut positions: Vec<Position> = Vec::new();
        positions.push(*p2);
        proof {
            assert(self.galaxy_at(*p2).contains(*p2));
            assert(g1.contains(*p1));
            assert(!g2@.contains(*p1));
            assert(self.is_galaxy(g2@));
        }
        self.remove_positions_from_galaxy(&g2, &positions);
        let ghost middle = *self;
        proof {
            assert(middle.galaxy_at(positions[0]) == set![*p2]);
            assert(middle.galaxy_at(*p1) == g1);
        }
        self.make_neighbours(p1, p2);
        proof {
            self.lemma_joined(&middle, *p1, *p2);
            let grown = g1.insert(*p2);
            assert(self.galaxy_at(*p1) == grown);
            assert(positions@ =~= seq![*p2]);
            assert forall|q: Position| self.inside(q) && !grown.contains(q) implies #[trigger] self.galaxy_at(
                q,
            ) == before.left_after(*p2, None, q) by {
                assert(self.galaxy_at(q) == middle.galaxy_at(q));
            }
            assert forall|q: Position| self.inside(q) && !grown.contains(q) implies (
            #[trigger] self.galaxy_at(q) == before.galaxy_at(q) || valid_shape(
                self.galaxy_at(q),
            )) by {
                assert(self.galaxy_at(q) == middle.galaxy_at(q));
                if g2@.contains(q) {
                    assert(before.galaxy_at(*p2).contains(q));
                    assert(before.galaxy_at(q) =~= g2@);
                }
            }
            assert(connected(g1) && symmetric(g1));
            lemma_connected_grows(g1, *p1, *p2);
            self.lemma_grew(&before, *p1, grown);
            if before.valid() {
                before.lemma_galaxy(before.id_at(*p1));
                assert(valid_shape(g1));
                lemma_grown_holds_center(g1, *p1, *p2);
                assert(grown.contains(*p2));
                assert(valid_shape(grown));
                self.lemma_all_valid(*p1);
            }
        }
    }

    /// Joins the cells `p2` and `p3` to the galaxy of `p1`, a neighbour of `p2`,
    /// after taking them out of their own galaxies in the way of
    /// `remove_positions_from_galaxy`. This is the step for a `p2` with which the
    /// galaxy of `p1` is not symmetric, and a `p3` that makes it symmetric again:
    /// the mirror of `p2`, or a neighbour of `p2` with which it is symmetric.
    pub fn join_pair(&mut self, p1: &Position, p2: &Position, p3: &Position)
        requires
            old(self).wf(),
            old(self).sound(),
            old(self).inside(*p1),
            old(self).inside(*p2),
            old(self).inside(*p3),
            p1.adjacent_to(*p2),
            old(self).id_at(*p1) != old(self).id_at(*p2),
            !old(self).galaxy_at(*p1).contains(*p3),
            *p3 != *p2,
            *p3 == center_of(old(self).galaxy_at(*p1)).mirrored(*p2) || (p2.adjacent_to(*p3)
                && symmetric(old(self).galaxy_at(*p1).insert(*p2).insert(*p3))),
        ensures
            final(self).grew_from(
                old(self),
                *p1,
                old(self).galaxy_at(*p1).insert(*p2).insert(*p3),
            ),
            final(self).joined_from(old(self), *p1, *p2, Some(*p3)),
            final(self).sound(),
            old(self).valid() ==> final(self).valid(),
    {
        let ghost before = *self;
        let ghost g1 = self.galaxy_at(*p1);
        let ghost grown = g1.insert(*p2).insert(*p3);
        let g2 = self.get_galaxy(p2);
        let g3 = self.get_galaxy(p3);
        proof {
            assert(self.galaxy_at(*p2).contains(*p2));
            assert(self.galaxy_at(*p3).contains(*p3));
            assert(g1.contains(*p1));
            assert(!g2@.contains(*p1));
            assert(!g3@.contains(*p1));
            assert(self.is_galaxy(g2@));
            assert(self.is_galaxy(g3@));
            self.lemma_owns(g2@);
            self.lemma_owns(g3@);
            self.lemma_galaxy(self.id_at(*p1));
            self.lemma_pair_shape(*p1, *p2, *p3);
        }
        if g2.same_cells(&g3) {
            let mut positions: Vec<Position> = Vec::new();
            positions.push(*p2);
            positions.push(*p3);
            self.remove_positions_from_galaxy(&g2, &positions);
            proof {
                assert(self.galaxy_at(positions[0]) == set![*p2]);
                assert(self.galaxy_at(positions[1]) == set![*p3]);
                assert(positions@ =~= seq![*p2, *p3]);
                assert(g2@.contains(*p3));
                assert forall|q: Position| self.inside(q) implies #[trigger] self.galaxy_at(q)
                    == before.left_after(*p2, Some(*p3), q) by {}
            }
        } else {
            let mut positions: Vec<Position> = Vec::new();
            positions.push(*p2);
            self.remove_positions_from_galaxy(&g2, &positions);
            let ghost first = *self;
            proof {
                assert(first.galaxy_at(positions[0]) == set![*p2]);
                assert(!g2@.contains(*p3)) by {
                    if g2@.contains(*p3) {
                        assert(before.galaxy_at(*p3) == g2@);
                    }
                }
                assert(first.galaxy_at(*p3) == g3@);
                assert(first.is_galaxy(g3@));
                assert(symmetric(g3@));
                assert(!g3@.contains(*p2)) by {
                    if g3@.contains(*p2) {
                        assert(before.galaxy_at(*p2) == g3@);
                    }
                }
            }
            let mut others: Vec<Position> = Vec::new();
            others.push(*p3);
            self.remove_positions_from_galaxy(&g3, &others);
            proof {
                assert(self.galaxy_at(others[0]) == set![*p3]);
                assert(self.galaxy_at(*p2) == first.galaxy_at(*p2));
                assert forall|q: Position|
                    self.inside(q) && !g2@.contains(q) && !g3@.contains(q) implies #[trigger] self.galaxy_at(
                    q,
                ) == before.galaxy_at(q) by {
                    assert(first.galaxy_at(q) == before.galaxy_at(q));
                }
                assert forall|q: Position| g2@.contains(q) implies valid_shape(
                    #[trigger] self.galaxy_at(q),
                ) || self.galaxy_at(q) == g2@ by {
                    assert(before.galaxy_at(q) == g2@);
                    assert(!g3@.contains(q)) by {
                        if g3@.contains(q) {
                            assert(before.galaxy_at(q) == g3@);
                        }
                    }
                    assert(self.galaxy_at(q) == first.galaxy_at(q));
                }
                assert(positions@ =~= seq![*p2]);
                assert(others@ =~= seq![*p3]);
                assert forall|q: Position| self.inside(q) implies #[trigger] self.galaxy_at(q)
                    == before.left_after(*p2, Some(*p3), q) by {
                    if g2@.contains(q) {
                        assert(before.galaxy_at(q) == g2@);
                        assert(!g3@.contains(q)) by {
                            if g3@.contains(q) {
                                assert(before.galaxy_at(q) == g3@);
                            }
                        }
                        assert(self.galaxy_at(q) == first.galaxy_at(q));
                    } else if g3@.contains(q) {
                        assert(first.galaxy_at(q) == before.galaxy_at(q));
                    } else {
                        assert(first.galaxy_at(q) == before.galaxy_at(q));
                    }
                }
            }
        }
        let ghost middle = *self;
        proof {
            assert(middle.galaxy_at(*p1) == g1);
            assert(middle.galaxy_at(*p2) == set![*p2]);
            assert(middle.galaxy_at(*p3) == set![*p3]);
            assert forall|q: Position|
                middle.inside(q) && !g1.contains(q) implies #[trigger] middle.galaxy_at(q)
                == before.galaxy_at(q) || valid_shape(middle.galaxy_at(q)) by {
                if g2@.contains(q) {
                    assert(before.galaxy_at(q) == g2@);
                } else if g3@.contains(q) {
                    assert(before.galaxy_at(q) == g3@);
                }
            }
        }
        self.make_neighbours(p1, p2);
        let ghost third = *self;
        proof {
            third.lemma_joined(&middle, *p1, *p2);
            assert(third.galaxy_at(*p1) == g1.insert(*p2));
            assert(third.galaxy_at(*p3) == set![*p3]);
        }
        self.make_neighbours(p1, p3);
        proof {
            self.lemma_joined(&third, *p1, *p3);
            assert(self.galaxy_at(*p1) == grown);
            assert forall|q: Position| self.inside(q) && !grown.contains(q) implies (
            #[trigger] self.galaxy_at(q) == before.galaxy_at(q) || valid_shape(
                self.galaxy_at(q),
            )) by {
                assert(self.galaxy_at(q) == third.galaxy_at(q));
                assert(third.galaxy_at(q) == middle.galaxy_at(q));
            }
            assert forall|q: Position| self.inside(q) && !grown.contains(q) implies #[trigger] self.galaxy_at(
                q,
            ) == before.left_after(*p2, Some(*p3), q) by {
                assert(self.galaxy_at(q) == third.galaxy_at(q));
                assert(third.galaxy_at(q) == middle.galaxy_at(q));
                assert(middle.inside(q));
            }
            self.lemma_grew(&before, *p1, grown);
            if before.valid() {
                assert(valid_shape(g1));
                if *p3 == center_of(g1).mirrored(*p2) {
                    lemma_bounds_exist(g1);
                    lemma_center_range(g1, bounding_of(g1));
                    lemma_mirror_pair_joins(g1, *p2);
                    assert(center_of(grown) == center_of(g1));
                    assert(holds_center(grown)) by {
                        assert forall|x: Position| center_of(grown).surrounds(
                            x,
                        ) implies #[trigger] grown.contains(x) by {
                            assert(g1.contains(x));
                        }
                    }
                } else {
                    assert(!g1.contains(*p2));
                    lemma_pair_holds_center(g1, *p1, *p2, *p3);
                }
                assert(grown.contains(*p3));
                assert(valid_shape(grown));
                self.lemma_all_valid(*p1);
            }
        }
    }

    /// The galaxy of `p1` with `p2` and `p3` is connected and symmetric, where
    /// `p3` is the mirror of `p2` or a neighbour of `p2` with which it is
    /// symmetric.
    proof fn lemma_pair_shape(&self, p1: Position, p2: Position, p3: Position)
        requires
            self.wf(),
            self.sound(),
            self.inside(p1),
            self.inside(p2),
            self.inside(p3),
            p1.adjacent_to(p2),
            p3 == center_of(self.galaxy_at(p1)).mirrored(p2) || (p2.adjacent_to(p3) && symmetric(
                self.galaxy_at(p1).insert(p2).insert(p3),
            )),
        ensures
            connected(self.galaxy_at(p1).insert(p2).insert(p3)),
            symmetric(self.galaxy_at(p1).insert(p2).insert(p3)),
    {
        let g1 = self.galaxy_at(p1);
        let c = center_of(g1);
        self.lemma_galaxy(self.id_at(p1));
        assert(g1.contains(p1));
        assert(connected(g1) && symmetric(g1));
        lemma_connected_grows(g1, p1, p2);
        if p2.adjacent_to(p3) && symmetric(g1.insert(p2).insert(p3)) {
            assert(g1.insert(p2).contains(p2));
            lemma_connected_grows(g1.insert(p2), p2, p3);
        } else {
            lemma_bounds_exist(g1);
            lemma_center_range(g1, bounding_of(g1));
            lemma_mirror_pair_joins(g1, p2);
            lemma_mirror_adjacent(c, p1, p2);
            assert(g1.contains(c.mirrored(p1)));
            assert(g1.insert(p2).contains(c.mirrored(p1)));
            lemma_connected_grows(g1.insert(p2), c.mirrored(p1), p3);
        }
    }

    /// The cells that can follow `p2` into the galaxy of `p1` where that galaxy
    /// is not symmetric with `p2` alone: the mirror of `p2` through the center of
    /// the galaxy, if it lies in the universe, and then every neighbour of `p2`
    /// in another galaxy than `p2` with which the galaxy is symmetric.
    pub fn third_candidates(&self, p1: &Position, p2: &Position) -> (candidates: Vec<Position>)
        requires
            self.wf(),
            self.inside(*p1),
            self.inside(*p2),
        ensures
            forall|q: Position|
                candidates@.contains(q) <==> self.inside(q) && (q == center_of(
                    self.galaxy_at(*p1),
                ).mirrored(*p2) || (p2.adjacent_to(q) && self.id_at(q) != self.id_at(*p2)
                    && symmetric(self.galaxy_at(*p1).insert(*p2).insert(q)))),
            ({
                let mirror = center_of(self.galaxy_at(*p1)).mirrored(*p2);
                let first: int = if self.inside(mirror) {
                    1
                } else {
                    0
                };
                let rest = candidates@.subrange(first, candidates@.len() as int);
                &&& first <= candidates@.len()
                &&& first == 1 ==> candidates@[0] == mirror
                &&& in_turn(*p2, rest)
                &&& forall|q: Position|
                    rest.contains(q) <==> p2.adjacent_to(q) && self.inside(q) && self.id_at(q)
                        != self.id_at(*p2) && symmetric(
                        self.galaxy_at(*p1).insert(*p2).insert(q),
                    )
            }),
    {
        let g1 = self.get_galaxy(p1);
        let g1_with_p2 = g1.with_position(p2);
        let mut candidates: Vec<Position> = Vec::new();
        proof {
            lemma_bounds_exist(g1@);
            lemma_center_range(g1@, bounding_of(g1@));
        }
        let mirror = g1.mirror_position(p2);
        if self.is_inside(&mirror) {
            candidates.push(mirror);
        }
        let ghost first = candidates@;
        let adjacent = self.get_adjacent_non_neighbours(p2);
        let mut i: usize = 0;
        while i < adjacent.len()
            invariant
                self.wf(),
                i <= adjacent.len(),
                g1_with_p2.wf(),
                g1_with_p2@ == self.galaxy_at(*p1).insert(*p2),
                forall|q: Position|
                    adjacent@.contains(q) <==> p2.adjacent_to(q) && self.inside(q) && self.id_at(q)
                        != self.id_at(*p2),
                in_turn(*p2, adjacent@),
                first.len() <= candidates@.len(),
                candidates@.subrange(0, first.len() as int) == first,
                in_turn(*p2, candidates@.subrange(first.len() as int, candidates@.len() as int)),
                forall|k: int, j: int|
                    first.len() <= k < candidates@.len() && i <= j < adjacent@.len() ==> p2.turn_of(
                        #[trigger] candidates@[k],
                    ) < p2.turn_of(#[trigger] adjacent@[j]),
                forall|q: Position|
                    #![trigger candidates@.subrange(first.len() as int, candidates@.len() as int).contains(q)]
                    candidates@.subrange(first.len() as int, candidates@.len() as int).contains(q)
                        <==> adjacent@.subrange(0, i as int).contains(q) && symmetric(
                        self.galaxy_at(*p1).insert(*p2).insert(q),
                    ),
            decreases adjacent.len() - i,
        {
            let q = adjacent[i];
            let ghost before = candidates@;
            let ghost tail = before.subrange(first.len() as int, before.len() as int);
            proof {
                assert(adjacent@.contains(q));
                assert(self.inside(q));
                assert(q.in_range());
                lemma_prefix_contains(adjacent@, i as int);
                lemma_push_contains(tail, q);
            }
            if g1_with_p2.with_position(&q).is_symmetric() {
                candidates.push(q);
                proof {
                    let rest = candidates@.subrange(first.len() as int, candidates@.len() as int);
                    assert(rest =~= tail.push(q));
                    assert(candidates@.subrange(0, first.len() as int) =~= before.subrange(
                        0,
                        first.len() as int,
                    ));
                    assert forall|a: int, b: int| 0 <= a < b < rest.len() implies p2.turn_of(
                        #[trigger] rest[a],
                    ) < p2.turn_of(#[trigger] rest[b]) by {
                        assert(rest[a] == before[first.len() + a]);
                        if b < tail.len() {
                            assert(rest[a] == tail[a] && rest[b] == tail[b]);
                        } else {
                            assert(rest[b] == adjacent@[i as int]);
                        }
                    }
                }
            }
            i += 1;
        }
        proof {
            assert(adjacent@.subrange(0, adjacent@.len() as int) =~= adjacent@);
            let rest = candidates@.subrange(first.len() as int, candidates@.len() as int);
            assert forall|q: Position| first.contains(q) <==> self.inside(q) && q == mirror by {
                if first.contains(q) {
                    let k = choose|k: int| 0 <= k < first.len() && first[k] == q;
                    assert(first[k] == q);
                }
                if self.inside(q) && q == mirror {
                    assert(first[0] == q);
                }
            }
            assert forall|q: Position|
                candidates@.contains(q) <==> first.contains(q) || rest.contains(q) by {
                if candidates@.contains(q) {
                    let k = choose|k: int| 0 <= k < candidates@.len() && candidates@[k] == q;
                    if k < first.len() {
                        assert(candidates@.subrange(0, first.len() as int)[k] == q);
                    } else {
                        assert(rest[k - first.len()] == q);
                    }
                }
                if first.contains(q) {
                    let k = choose|k: int| 0 <= k < first.len() && first[k] == q;
                    assert(candidates@.subrange(0, first.len() as int)[k] == q);
                    assert(candidates@[k] == q);
                }
                if rest.contains(q) {
                    let k = choose|k: int| 0 <= k < rest.len() && rest[k] == q;
                    assert(candidates@[first.len() + k] == q);
                }
            }
            if self.inside(mirror) {
                assert(candidates@.subrange(0, first.len() as int)[0] == first[0]);
            }
            assert forall|q: Position|
                rest.contains(q) <==> p2.adjacent_to(q) && self.inside(q) && self.id_at(q)
                    != self.id_at(*p2) && symmetric(
                    self.galaxy_at(*p1).insert(*p2).insert(q),
                ) by {
                assert(rest.contains(q) <==> adjacent@.contains(q) && symmetric(
                    self.galaxy_at(*p1).insert(*p2).insert(q),
                ));
                assert(adjacent@.contains(q) <==> p2.adjacent_to(q) && self.inside(q)
                    && self.id_at(q) != self.id_at(*p2));
            }
            assert forall|q: Position|
                candidates@.contains(q) <==> self.inside(q) && (q == center_of(
                    self.galaxy_at(*p1),
                ).mirrored(*p2) || (p2.adjacent_to(q) && self.id_at(q) != self.id_at(*p2)
                    && symmetric(self.galaxy_at(*p1).insert(*p2).insert(q)))) by {
                assert(candidates@.contains(q) <==> first.contains(q) || rest.contains(q));
                assert(first.contains(q) <==> self.inside(q) && q == mirror);
                assert(mirror == center_of(self.galaxy_at(*p1)).mirrored(*p2));
            }
        }
        candidates
    }

    /// A candidate for the third cell is neither `p2` nor a cell of the galaxy
    /// of `p1`.
    proof fn lemma_candidate(&self, p1: Position, p2: Position, q: Position)
        requires
            self.wf(),
            self.sound(),
            self.inside(p1),
            self.inside(p2),
            self.inside(q),
            self.id_at(p1) != self.id_at(p2),
            !symmetric(self.galaxy_at(p1).insert(p2)),
            q == center_of(self.galaxy_at(p1)).mirrored(p2) || symmetric(
                self.galaxy_at(p1).insert(p2).insert(q),
            ),
        ensures
            q != p2,
            !self.galaxy_at(p1).contains(q),
    {
        let g1 = self.galaxy_at(p1);
        let c = center_of(g1);
        self.lemma_galaxy(self.id_at(p1));
        assert(g1.contains(p1));
        assert(!g1.contains(p2));
        assert(symmetric(g1));
        if symmetric(g1.insert(p2).insert(q)) {
            if q == p2 || g1.contains(q) {
                assert(g1.insert(p2).insert(q) =~= g1.insert(p2));
            }
        } else {
            lemma_bounds_exist(g1);
            lemma_center_range(g1, bounding_of(g1));
            if q == p2 {
                lemma_mirror_pair_joins(g1, p2);
                assert(g1.insert(p2).insert(q) =~= g1.insert(p2));
            }
            if g1.contains(q) {
                assert(g1.contains(c.mirrored(q)));
                assert(c.mirrored(q) == p2);
            }
        }
    }

    /// One step of the generator: draws a cell `p1` and one of its neighbours in
    /// another galaxy, `p2`, and joins `p2` to the galaxy of `p1`. Where the
    /// galaxy is not symmetric with `p2`, a third cell that makes it symmetric is
    /// drawn and joined as well. What the joined cells leave behind is kept
    /// valid in the way of `remove_positions_from_galaxy`. Returns whether the
    /// universe was changed; it is not where `p1` has no such neighbour, or no
    /// third cell is to be had. A valid universe stays valid either way.
    pub fn generate_step(&mut self, rng: &mut StdRng) -> (changed: bool)
        requires
            old(self).wf(),
            old(self).rows() >= 1,
            old(self).columns() >= 1,
            old(self).sound(),
        ensures
            final(self).wf(),
            final(self).same_size(old(self)),
            final(self).sound(),
            !changed ==> final(self).same_as(old(self)) && exists|
                p1: Position,
                p2: Option<Position>,
            | #[trigger] old(self).idle_at(p1, p2),
            changed ==> exists|p1: Position, p2: Position, p3: Option<Position>| #[trigger]
                final(self).step_of(old(self), p1, p2, p3),
            old(self).valid() ==> final(self).valid(),
    {
        let p1 = self.random_position(rng);
        let others = self.get_adjacent_non_neighbours(&p1);
        let drawn = choose_position(rng, &others);
        match drawn {
            None => {
                proof {
                    assert forall|q: Position|
                        !(#[trigger] p1.adjacent_to(q) && self.inside(q) && self.id_at(q)
                            != self.id_at(p1)) by {
                        if p1.adjacent_to(q) && self.inside(q) && self.id_at(q) != self.id_at(p1) {
                            assert(others@.contains(q));
                        }
                    }
                    assert(self.idle_at(p1, None));
                }
                false
            },
            Some(p2) => {
                proof {
                    assert(others@.contains(p2));
                    assert(self.inside(p2));
                    assert(p2.in_range());
                }
                let g1 = self.get_galaxy(&p1);
                let g1_with_p2 = g1.with_position(&p2);
                if g1_with_p2.is_symmetric() {
                    self.join(&p1, &p2);
                    proof {
                        assert(self.step_of(old(self), p1, p2, None));
                    }
                    true
                } else {
                    let candidates = self.third_candidates(&p1, &p2);
                    if candidates.len() == 0 {
                        proof {
                            let g1 = self.galaxy_at(p1);
                            assert forall|q: Position|
                                !(#[trigger] p2.adjacent_to(q) && self.inside(q) && self.id_at(q)
                                    != self.id_at(p2) && symmetric(
                                    g1.insert(p2).insert(q),
                                )) by {
                                if p2.adjacent_to(q) && self.inside(q) && self.id_at(q)
                                    != self.id_at(p2) && symmetric(g1.insert(p2).insert(q)) {
                                    assert(candidates@.contains(q));
                                }
                            }
                            if self.inside(center_of(g1).mirrored(p2)) {
                                assert(candidates@.contains(center_of(g1).mirrored(p2)));
                            }
                            assert(self.idle_at(p1, Some(p2)));
                        }
                        false
                    } else {
                        let p3 = candidates[random_below(rng, candidates.len())];
                        proof {
                            assert(candidates@.contains(p3));
                            self.lemma_candidate(p1, p2, p3);
                        }
                        self.join_pair(&p1, &p2, &p3);
                        proof {
                            assert(self.step_of(old(self), p1, p2, Some(p3)));
                        }
                        true
                    }
                }
            },
        }
    }
}

/// Two neighbouring cells are symmetric about the middle between them.
pub proof fn lemma_domino_symmetric(a: Position, b: Position)
    requires
        a.in_range(),
        b.in_range(),
        a.adjacent_to(b),
    ensures
        symmetric(set![a].insert(b)),
{
    let cells = set![a].insert(b);
    let r = crate::rectangle::Rectangle {
        min_row: if a.row < b.row {
            a.row
        } else {
            b.row
        },
        max_row: if a.row < b.row {
            (b.row + 1) as i32
        } else {
            (a.row + 1) as i32
        },
        min_column: if a.column < b.column {
            a.column
        } else {
            b.column
        },
        max_column: if a.column < b.column {
            (b.column + 1) as i32
        } else {
            (a.column + 1) as i32
        },
    };
    assert(cells.contains(a) && cells.contains(b));
    assert(r.bounds(cells));
    crate::rectangle::lemma_bounding(cells, r);
    let c = center_of(cells);
    assert(c.mirrored(a) == b);
    assert(c.mirrored(b) == a);
    assert forall|p: Position| cells.contains(p) implies cells.contains(
        #[trigger] c.mirrored(p),
    ) by {}
}

impl Universe {
    /// Every cell is a galaxy of its own.
    pub open spec fn single(&self) -> bool {
        forall|p: Position| self.inside(p) ==> #[trigger] self.galaxy_at(p) == set![p]
    }

    /// Some galaxy has more than one cell.
    pub open spec fn lumpy(&self) -> bool {
        exists|p: Position| self.inside(p) && #[trigger] self.galaxy_at(p) != set![p]
    }

    /// The universe has grown out of single cells by `count` steps of the
    /// generator, each of them a `step_of` the one before.
    pub open spec fn grown_in(&self, count: nat) -> bool
        decreases count,
    {
        if count == 0 {
            self.wf() && self.single()
        } else {
            exists|middle: Universe, p1: Position, p2: Position, p3: Option<Position>| #[trigger]
                self.step_of(&middle, p1, p2, p3) && middle.grown_in((count - 1) as nat)
        }
    }

    /// A universe with the same identifiers has grown in the same steps.
    pub proof fn lemma_same_grown(&self, other: &Universe, count: nat)
        requires
            self.wf(),
            self.same_as(other),
            other.grown_in(count),
        ensures
            self.grown_in(count),
    {
        self.lemma_same_galaxies(other);
        if count > 0 {
            let (middle, p1, p2, p3) = choose|
                middle: Universe,
                p1: Position,
                p2: Position,
                p3: Option<Position>,
            | #[trigger]
                other.step_of(&middle, p1, p2, p3) && middle.grown_in((count - 1) as nat);
            assert(self.inside(p1));
            assert(self.galaxy_at(p1) == other.galaxy_at(p1));
            assert(self.joined_from(&middle, p1, p2, p3));
            assert(self.step_of(&middle, p1, p2, p3));
        }
    }

    /// After a step of the generator some galaxy has more than one cell: the
    /// one that grew.
    pub proof fn lemma_step_lumpy(
        &self,
        before: &Universe,
        p1: Position,
        p2: Position,
        p3: Option<Position>,
    )
        requires
            self.step_of(before, p1, p2, p3),
        ensures
            self.lumpy(),
    {
        assert(self.inside(p1));
        assert(self.galaxy_at(p1).contains(p2));
        assert(!set![p1].contains(p2));
    }

    /// A universe that has grown in one step or more has a galaxy of more than
    /// one cell; one that has grown in none has only single cells.
    pub proof fn lemma_grown(&self, count: nat)
        requires
            self.grown_in(count),
        ensures
            self.wf(),
            count >= 1 ==> self.lumpy(),
            count == 0 ==> self.single(),
    {
        if count >= 1 {
            let (middle, p1, p2, p3) = choose|
                middle: Universe,
                p1: Position,
                p2: Position,
                p3: Option<Position>,
            | #[trigger]
                self.step_of(&middle, p1, p2, p3) && middle.grown_in((count - 1) as nat);
            self.lemma_step_lumpy(&middle, p1, p2, p3);
        }
    }

    /// Among single cells, two or more of them, a step of the generator is
    /// never idle: whatever cell is drawn has a neighbour, and with it makes a
    /// symmetric pair.
    pub proof fn lemma_single_steps(&self, p1: Position, p2: Option<Position>)
        requires
            self.wf(),
            self.single(),
            self.rows() * self.columns() >= 2,
        ensures
            !self.idle_at(p1, p2),
    {
        if self.idle_at(p1, p2) {
            match p2 {
                None => {
                    assert(self.rows() >= 2 || self.columns() >= 2) by (nonlinear_arith)
                        requires
                            self.rows() * self.columns() >= 2,
                            self.rows() >= 0,
                            self.columns() >= 0,
                    ;
                    let q = if self.columns() >= 2 {
                        if p1.column > 0 {
                            p1.shift(0, -1)
                        } else {
                            p1.shift(0, 1)
                        }
                    } else {
                        if p1.row > 0 {
                            p1.shift(-1, 0)
                        } else {
                            p1.shift(1, 0)
                        }
                    };
                    assert(p1.adjacent_to(q) && self.inside(q));
                    assert(self.galaxy_at(q) == set![q]);
                    if self.id_at(q) == self.id_at(p1) {
                        assert(self.galaxy_at(q).contains(p1));
                    }
                    assert(false);
                },
                Some(p2) => {
                    assert(self.galaxy_at(p1) == set![p1]);
                    lemma_domino_symmetric(p1, p2);
                    assert(false);
                },
            }
        }
    }
}

/// The number of steps that the generator tries for each cell of the grid.
pub const STEPS_PER_CELL: usize = 10;

/// The number of steps among which the generator chooses each time.
pub const BRANCHES: usize = 5;

impl Universe {
    /// Grows a universe of `width` columns and `height` rows out of single
    /// cells. `STEPS_PER_CELL` times for each cell, it tries `BRANCHES` steps of
    /// the generator, each on a copy of the universe, and goes on with the best
    /// of the copies that were changed, or as it is where none was. Of two
    /// copies the later one is the better where `no_worse` says so of it and the
    /// earlier one. Whatever `no_worse` says, the universe that comes out is
    /// valid and has grown out of single cells by as many steps as were taken
    /// over, at least one where there are two cells or more: among single
    /// cells every step finds two to join.
    pub fn generate_with<F: Fn(&Universe, &Universe) -> bool>(
        width: usize,
        height: usize,
        rng: &mut StdRng,
        no_worse: F,
    ) -> (universe: Universe)
        requires
            width <= COORDINATE_LIMIT,
            height <= COORDINATE_LIMIT,
            width * height * STEPS_PER_CELL < usize::MAX,
            forall|a: Universe, b: Universe| #[trigger] no_worse.requires((&a, &b)),
        ensures
            universe.wf(),
            universe.rows() == height,
            height > 0 ==> universe.columns() == width,
            universe.valid(),
            exists|count: nat|
                count <= width * height * STEPS_PER_CELL && #[trigger] universe.grown_in(count)
                    && (width * height >= 2 ==> count >= 1),
            width >= 1 && height >= 1 && width * height >= 2 ==> universe.lumpy(),
    {
        proof {
            assert(width * height <= width * height * STEPS_PER_CELL) by (nonlinear_arith)
                requires
                    width >= 0,
                    height >= 0,
                    STEPS_PER_CELL == 10,
            ;
        }
        let mut universe = Universe::new(width, height);
        let iterations: usize = width * height * STEPS_PER_CELL;
        let mut iteration: usize = 0;
        let ghost mut count: nat = 0;
        while iteration < iterations
            invariant
                iteration <= iterations,
                count <= iteration,
                universe.grown_in(count),
                iteration >= 1 && width * height >= 2 ==> count >= 1,
                universe.wf(),
                universe.rows() == height,
                height > 0 ==> universe.columns() == width,
                universe.valid(),
                iterations == width * height * STEPS_PER_CELL,
                forall|a: Universe, b: Universe| #[trigger] no_worse.requires((&a, &b)),
            decreases iterations - iteration,
        {
            proof {
                assert(width >= 1 && height >= 1) by (nonlinear_arith)
                    requires
                        width * height * STEPS_PER_CELL > 0,
                        width >= 0,
                        height >= 0,
                ;
            }
            let mut best: Option<Universe> = None;
            let mut branch: usize = 0;
            while branch < BRANCHES
                invariant
                    branch <= BRANCHES,
                    universe.grown_in(count),
                    count == 0 && width * height >= 2 && branch >= 1 ==> best is Some,
                    match best {
                        Some(b) => b.grown_in(count + 1),
                        None => true,
                    },
                    universe.wf(),
                    universe.rows() == height,
                    universe.columns() == width,
                    universe.valid(),
                    height >= 1,
                    width >= 1,
                    forall|a: Universe, b: Universe| #[trigger] no_worse.requires((&a, &b)),
                    match best {
                        Some(b) => b.wf() && b.rows() == height && b.columns() == width
                            && b.valid(),
                        None => true,
                    },
                decreases BRANCHES - branch,
            {
                let mut next = universe.copy();
                let ghost copied = next;
                proof {
                    next.lemma_same_galaxies(&universe);
                    next.lemma_same_grown(&universe, count);
                }
                let changed = next.generate_step(rng);
                proof {
                    if changed {
                        let (p1, p2, p3) = choose|
                            p1: Position,
                            p2: Position,
                            p3: Option<Position>,
                        | #[trigger] next.step_of(&copied, p1, p2, p3);
                        assert(next.step_of(&copied, p1, p2, p3) && copied.grown_in(count));
                        assert(next.grown_in(count + 1));
                    } else if count == 0 && width * height >= 2 {
                        let (p1, p2) = choose|p1: Position, p2: Option<Position>| #[trigger]
                            copied.idle_at(p1, p2);
                        copied.lemma_grown(0);
                        assert(copied.rows() * copied.columns() == width * height)
                            by (nonlinear_arith)
                            requires
                                copied.rows() == height,
                                copied.columns() == width,
                        ;
                        copied.lemma_single_steps(p1, p2);
                    }
                }
                if changed {
                    best = match best {
                        None => Some(next),
                        Some(b) => if no_worse(&next, &b) {
                            Some(next)
                        } else {
                            Some(b)
                        },
                    };
                }
                branch += 1;
            }
            match best {
                Some(b) => {
                    universe = b;
                    proof {
                        count = count + 1;
                    }
                },
                None => {},
            }
            iteration += 1;
        }
        proof {
            universe.lemma_grown(count);
            if width * height >= 2 {
                assert(iterations >= 1) by (nonlinear_arith)
                    requires
                        iterations == width * height * STEPS_PER_CELL,
                        width * height >= 2,
                        STEPS_PER_CELL == 10,
                ;
            }
        }
        universe
    }

    /// Grows a universe of `width` columns and `height` rows in the way of
    /// `generate_with`, drawing from a generator of random numbers that is made
    /// of `seed`.
    pub fn generate_seeded<F: Fn(&Universe, &Universe) -> bool>(
        width: usize,
        height: usize,
        seed: u64,
        no_worse: F,
    ) -> (universe: Universe)
        requires
            width <= COORDINATE_LIMIT,
            height <= COORDINATE_LIMIT,
            width * height * STEPS_PER_CELL < usize::MAX,
            forall|a: Universe, b: Universe| #[trigger] no_worse.requires((&a, &b)),
        ensures
            universe.wf(),
            universe.rows() == height,
            height > 0 ==> universe.columns() == width,
            universe.valid(),
            exists|count: nat|
                count <= width * height * STEPS_PER_CELL && #[trigger] universe.grown_in(count)
                    && (width * height >= 2 ==> count >= 1),
            width >= 1 && height >= 1 && width * height >= 2 ==> universe.lumpy(),
    {
        let mut rng = seeded(seed);
        Universe::generate_with(width, height, &mut rng, no_worse)
    }

    /// The galaxies of a universe part its cells: every cell lies in its own
    /// galaxy, and two galaxies that share a cell are one.
    pub proof fn lemma_galaxies_part(&self, p: Position, q: Position)
        requires
            self.inside(p),
            self.inside(q),
        ensures
            self.galaxy_at(p).contains(p),
            self.galaxy_at(p).contains(q) ==> self.galaxy_at(q) == self.galaxy_at(p),
            !self.galaxy_at(p).contains(q) ==> self.galaxy_at(p).disjoint(self.galaxy_at(q)),
    {
        if self.galaxy_at(p).contains(q) {
            assert(self.galaxy_at(q) =~= self.galaxy_at(p));
        }
    }
}

impl Universe {
    /// The two positions are cells of one galaxy.
    pub open spec fn together(&self, a: Position, b: Position) -> bool {
        self.inside(a) && self.inside(b) && self.id_at(a) == self.id_at(b)
    }

    /// The arms of the glyph at the corner whose lower right cell is `corner`: an
    /// arm stands between two cells that are not of one galaxy, but none beyond
    /// the frame.
    pub open spec fn bars_at(&self, corner: Position) -> Bars {
        let bottom_right = corner;
        let bottom_left = corner.shift(0, -1);
        let top_left = corner.shift(-1, -1);
        let top_right = corner.shift(-1, 0);
        Bars {
            top: corner.row != 0 && !self.together(top_left, top_right),
            right: corner.column != self.columns() && !self.together(top_right, bottom_right),
            bottom: corner.row != self.rows() && !self.together(bottom_left, bottom_right),
            left: corner.column != 0 && !self.together(top_left, bottom_left),
        }
    }

    /// The glyphs of the corners of the grid, row by row.
    pub open spec fn bar_rows(&self) -> Seq<Seq<Bars>> {
        Seq::new(
            (self.rows() + 1) as nat,
            |r: int|
                Seq::new(
                    (self.columns() + 1) as nat,
                    |c: int| self.bars_at(Position { row: r as i32, column: c as i32 }),
                ),
        )
    }

    /// Draws the universe with box-drawing glyphs: the frame, and a wall between
    /// every two neighbouring cells of different galaxies. Lines carry no spaces
    /// at their end.
    pub fn render(&self) -> (s: String)
        requires
            self.wf(),
        ensures
            s@ == drawing(self.bar_rows(), true),
    {
        let height = self.get_height();
        let width = self.get_width();
        let mut rows: Vec<Vec<Bars>> = Vec::new();
        let ghost target = self.bar_rows();
        let mut row: usize = 0;
        while row <= height
            invariant
                self.wf(),
                height == self.rows(),
                width == self.columns(),
                row <= height + 1,
                target == self.bar_rows(),
                rows@.len() == row,
                forall|i: int| 0 <= i < rows@.len() ==> (#[trigger] rows@[i])@ == target[i],
            decreases height + 1 - row,
        {
            let mut line: Vec<Bars> = Vec::new();
            let mut column: usize = 0;
            while column <= width
                invariant
                    self.wf(),
                    height == self.rows(),
                    width == self.columns(),
                    row <= height,
                    column <= width + 1,
                    target == self.bar_rows(),
                    line@.len() == column,
                    forall|i: int| 0 <= i < line@.len() ==> #[trigger] line@[i] == target[row as int][i],
                decreases width + 1 - column,
            {
                let bottom_right = Position::at(row, column);
                let bottom_left = bottom_right.left();
                let top_left = bottom_left.up();
                let top_right = bottom_right.up();
                line.push(
                    Bars {
                        top: row != 0 && !self.are_neighbours(&top_left, &top_right),
                        right: column != width && !self.are_neighbours(&top_right, &bottom_right),
                        bottom: row != height && !self.are_neighbours(&bottom_left, &bottom_right),
                        left: column != 0 && !self.are_neighbours(&top_left, &bottom_left),
                    },
                );
                column += 1;
            }
            assert(line@ =~= target[row as int]);
            rows.push(line);
            row += 1;
        }
        let text = draw(&rows, true);
        assert(rows@.map_values(|row: Vec<Bars>| row@) =~= target);
        string_of(&text)
    }

    /// The walls of the universe: the border between a cell and each neighbour
    /// that lies outside the grid or in another galaxy.
    pub fn borders(&self) -> (walls: SortedSet<Border>)
        requires
            self.wf(),
        ensures
            walls.wf(),
            forall|p: Position, q: Position|
                self.inside(p) && p.adjacent_to(q) && !self.together(p, q)
                    ==> walls@.contains(#[trigger] Border::between(p, q)),
            forall|b: Border|
                walls@.contains(b) ==> exists|p: Position, q: Position|
                    self.inside(p) && p.adjacent_to(q) && !self.together(p, q) && b
                        == #[trigger] Border::between(p, q),
    {
        let cells = self.get_positions();
        let mut walls: SortedSet<Border> = SortedSet::new();
        let mut i: usize = 0;
        while i < cells.len()
            invariant
                self.wf(),
                i <= cells.len(),
                forall|p: Position| cells@.contains(p) <==> self.inside(p),
                walls.wf(),
                forall|k: int, q: Position|
                    0 <= k < i && cells@[k].adjacent_to(q) && !self.together(cells@[k], q)
                        ==> walls@.contains(#[trigger] Border::between(cells@[k], q)),
                forall|b: Border|
                    walls@.contains(b) ==> exists|p: Position, q: Position|
                        self.inside(p) && p.adjacent_to(q) && !self.together(p, q) && b
                            == #[trigger] Border::between(p, q),
            decreases cells.len() - i,
        {
            let p = cells[i];
            assert(cells@.contains(p));
            assert(self.inside(p));
            let around = p.adjacent();
            let mut j: usize = 0;
            while j < around.len()
                invariant
                    self.wf(),
                    self.inside(p),
                    i < cells.len(),
                    p == cells@[i as int],
                    j <= around.len() == 4,
                    forall|q: Position| #[trigger] around@.contains(q) <==> p.adjacent_to(q),
                    walls.wf(),
                    forall|k: int, q: Position|
                        0 <= k < i && cells@[k].adjacent_to(q) && !self.together(cells@[k], q)
                            ==> walls@.contains(#[trigger] Border::between(cells@[k], q)),
                    forall|m: int|
                        0 <= m < j && !self.together(p, around@[m]) ==> walls@.contains(
                            #[trigger] Border::between(p, around@[m]),
                        ),
                    forall|b: Border|
                        walls@.contains(b) ==> exists|p: Position, q: Position|
                            self.inside(p) && p.adjacent_to(q) && !self.together(p, q) && b
                                == #[trigger] Border::between(p, q),
                decreases around.len() - j,
            {
                let q = around[j];
                assert(around@.contains(q));
                if !self.are_neighbours(&p, &q) {
                    let ghost before = walls@;
                    walls.insert(Border::new(p, q));
                    proof {
                        assert forall|b: Border| walls@.contains(b) implies exists|
                            p: Position,
                            q: Position,
                        |
                            self.inside(p) && p.adjacent_to(q) && !self.together(p, q) && b
                                == #[trigger] Border::between(p, q) by {
                            if !before.contains(b) {
                                assert(b == Border::between(p, q));
                            }
                        }
                    }
                }
                j += 1;
            }
            proof {
                assert forall|k: int, q: Position|
                    0 <= k < i + 1 && cells@[k].adjacent_to(q) && !self.together(
                        cells@[k],
                        q,
                    ) implies walls@.contains(#[trigger] Border::between(cells@[k], q)) by {
                    if k == i {
                        assert(around@.contains(q));
                        let m = choose|m: int| 0 <= m < around@.len() && around@[m] == q;
                        assert(walls@.contains(Border::between(p, around@[m])));
                    }
                }
            }
            i += 1;
        }
        proof {
            assert forall|p: Position, q: Position|
                self.inside(p) && p.adjacent_to(q) && !self.together(p, q) implies walls@.contains(
                #[trigger] Border::between(p, q),
            ) by {
                assert(cells@.contains(p));
                let k = choose|k: int| 0 <= k < cells@.len() && cells@[k] == p;
                assert(walls@.contains(Border::between(cells@[k], q)));
            }
        }
        walls
    }
}

impl Universe {
    /// The cell `p` belongs to one of the galaxies, and `index` is the last of
    /// them that it belongs to.
    pub open spec fn last_with(galaxies: Seq<Galaxy>, p: Position, index: int) -> bool {
        &&& 0 <= index < galaxies.len()
        &&& galaxies[index]@.contains(p)
        &&& forall|j: int| index < j < galaxies.len() ==> !(#[trigger] galaxies[j])@.contains(p)
    }

    /// A grid of `height` rows and `width` columns holds all cells of the
    /// galaxies, is no larger than positions allow, and has fewer cells than can
    /// be counted.
    pub open spec fn holds_all(galaxies: Seq<Galaxy>, height: int, width: int) -> bool {
        height <= COORDINATE_LIMIT && width <= COORDINATE_LIMIT && height * width < usize::MAX
            && forall|i: int, p: Position|
            0 <= i < galaxies.len() && #[trigger] galaxies[i]@.contains(p) ==> 0 <= p.row < height
                && 0 <= p.column < width
    }

    /// The universe that is just large enough to hold the cells of the given
    /// galaxies. Every cell of a galaxy carries the index of the galaxy as its
    /// identifier, of the last galaxy where it belongs to several; every other
    /// cell carries `row * width + column`.
    pub fn from_galaxies(galaxies: &Vec<Galaxy>) -> (universe: Universe)
        requires
            forall|i: int| 0 <= i < galaxies.len() ==> (#[trigger] galaxies[i]).wf(),
            exists|height: int, width: int| #[trigger] Universe::holds_all(galaxies@, height, width),
        ensures
            universe.wf(),
            forall|i: int, p: Position|
                0 <= i < galaxies.len() && #[trigger] galaxies[i]@.contains(p) ==> universe.inside(
                    p,
                ),
            forall|p: Position, index: int|
                #[trigger] Universe::last_with(galaxies@, p, index) ==> universe.id_at(p) == index,
            forall|p: Position|
                universe.inside(p) && (forall|i: int|
                    0 <= i < galaxies.len() ==> !(#[trigger] galaxies[i])@.contains(p))
                    ==> #[trigger] universe.id_at(p) == p.row * universe.columns() + p.column,
            universe.rows() == 0 || exists|i: int, p: Position|
                0 <= i < galaxies.len() && #[trigger] galaxies[i]@.contains(p) && p.row
                    == universe.rows() - 1,
            universe.columns() == 0 || exists|i: int, p: Position|
                0 <= i < galaxies.len() && #[trigger] galaxies[i]@.contains(p) && p.column
                    == universe.columns() - 1,
    {
        let mut width: usize = 0;
        let mut height: usize = 0;
        let mut i: usize = 0;
        proof {
            let (h, w) = choose|h: int, w: int| #[trigger] Universe::holds_all(galaxies@, h, w);
            assert forall|k: int, p: Position|
                0 <= k < galaxies.len() && #[trigger] galaxies[k]@.contains(p) implies 0 <= p.row
                && 0 <= p.column by {
                assert(galaxies@[k]@.contains(p));
            }
        }
        while i < galaxies.len()
            invariant
                i <= galaxies.len(),
                width <= COORDINATE_LIMIT + 1,
                height <= COORDINATE_LIMIT + 1,
                exists|h: int, w: int| #[trigger] Universe::holds_all(galaxies@, h, w),
                forall|k: int| 0 <= k < galaxies.len() ==> (#[trigger] galaxies[k]).wf(),
                forall|k: int, p: Position|
                    0 <= k < galaxies.len() && #[trigger] galaxies[k]@.contains(p) ==> 0 <= p.row
                        && 0 <= p.column,
                forall|k: int, p: Position|
                    0 <= k < i && #[trigger] galaxies[k]@.contains(p) ==> p.row < height
                        && p.column < width,
                height == 0 || exists|k: int, p: Position|
                    0 <= k < i && #[trigger] galaxies[k]@.contains(p) && p.row == height - 1,
                width == 0 || exists|k: int, p: Position|
                    0 <= k < i && #[trigger] galaxies[k]@.contains(p) && p.column == width - 1,
            decreases galaxies.len() - i,
        {
            let galaxy = &galaxies[i];
            if !galaxy.is_empty() {
                let bounds = galaxy.get_bounding_rectangle();
                proof {
                    lemma_center_range(galaxy@, bounds);
                    let a = choose|p: Position| #[trigger]
                        galaxy@.contains(p) && p.row == bounds.max_row - 1;
                    let b = choose|p: Position| #[trigger]
                        galaxy@.contains(p) && p.column == bounds.max_column - 1;
                    assert(galaxies[i as int]@.contains(a) && galaxies[i as int]@.contains(b));
                    if height != 0 {
                        let (k, p) = choose|k: int, p: Position|
                            0 <= k < i && #[trigger] galaxies[k]@.contains(p) && p.row == height
                                - 1;
                        assert(galaxies[k]@.contains(p));
                    }
                    if width != 0 {
                        let (k, p) = choose|k: int, p: Position|
                            0 <= k < i && #[trigger] galaxies[k]@.contains(p) && p.column == width
                                - 1;
                        assert(galaxies[k]@.contains(p));
                    }
                }
                if bounds.max_row as usize > height {
                    height = bounds.max_row as usize;
                }
                if bounds.max_column as usize > width {
                    width = bounds.max_column as usize;
                }
                proof {
                    assert forall|k: int, p: Position|
                        0 <= k < i + 1 && #[trigger] galaxies[k]@.contains(p) implies p.row < height
                        && p.column < width by {
                        if k == i {
                            assert(bounds.contains(p));
                        }
                    }
                }
            } else {
                proof {
                    assert forall|k: int, p: Position|
                        0 <= k < i + 1 && #[trigger] galaxies[k]@.contains(p) implies p.row < height
                        && p.column < width by {
                        if k == i {
                            assert(galaxy@ =~= Set::<Position>::empty());
                        }
                    }
                    if height != 0 {
                        let (k, p) = choose|k: int, p: Position|
                            0 <= k < i && #[trigger] galaxies[k]@.contains(p) && p.row == height
                                - 1;
                        assert(galaxies[k]@.contains(p));
                    }
                    if width != 0 {
                        let (k, p) = choose|k: int, p: Position|
                            0 <= k < i && #[trigger] galaxies[k]@.contains(p) && p.column == width
                                - 1;
                        assert(galaxies[k]@.contains(p));
                    }
                }
            }
            i += 1;
        }
        proof {
            let (h, w) = choose|h: int, w: int| #[trigger] Universe::holds_all(galaxies@, h, w);
            if height != 0 && width != 0 {
                let (k, p) = choose|k: int, p: Position|
                    0 <= k < i && #[trigger] galaxies[k]@.contains(p) && p.row == height - 1;
                let (m, q) = choose|m: int, q: Position|
                    0 <= m < i && #[trigger] galaxies[m]@.contains(q) && q.column == width - 1;
                assert(galaxies[k]@.contains(p) && galaxies[m]@.contains(q));
                assert(height <= h && width <= w);
                assert(width * height <= h * w) by (nonlinear_arith)
                    requires
                        0 <= height <= h,
                        0 <= width <= w,
                ;
                assert(galaxies[k].wf());
                assert(p.in_range());
                assert(q.in_range());
            } else {
                assert(width * height == 0) by (nonlinear_arith)
                    requires
                        width == 0 || height == 0,
                ;
            }
        }
        if height == 0 || width == 0 {
            // a universe without cells
            let universe = Universe::new(0, 0);
            proof {
                assert forall|k: int, p: Position|
                    0 <= k < galaxies.len() && #[trigger] galaxies[k]@.contains(
                        p,
                    ) implies universe.inside(p) by {
                    assert(p.row < height && p.column < width);
                }
            }
            return universe;
        }
        let mut universe = Universe::new(width, height);
        let mut id: usize = 0;
        while id < galaxies.len()
            invariant
                id <= galaxies.len(),
                universe.wf(),
                universe.rows() == height,
                universe.columns() == width,
                forall|k: int| 0 <= k < galaxies.len() ==> (#[trigger] galaxies[k]).wf(),
                forall|k: int, p: Position|
                    0 <= k < galaxies.len() && #[trigger] galaxies[k]@.contains(p) ==> 0 <= p.row
                        < height && 0 <= p.column < width,
                forall|p: Position, index: int|
                    #[trigger] Universe::last_with(galaxies@.subrange(0, id as int), p, index)
                        ==> universe.id_at(p) == index,
                forall|p: Position|
                    universe.inside(p) && (forall|k: int|
                        0 <= k < id ==> !(#[trigger] galaxies[k])@.contains(p))
                        ==> #[trigger] universe.id_at(p) == p.row * width + p.column,
            decreases galaxies.len() - id,
        {
            let members = galaxies[id].get_positions();
            let ghost start = universe;
            let ghost galaxy = galaxies[id as int];
            proof {
                galaxy.lemma_elements();
            }
            let mut k: usize = 0;
            while k < members.len()
                invariant
                    k <= members.len(),
                    id < galaxies.len(),
                    galaxy == galaxies[id as int],
                    members@.to_set() == galaxy@,
                    universe.wf(),
                    universe.same_size(&start),
                    universe.rows() == height,
                    universe.columns() == width,
                    forall|j: int, p: Position|
                        0 <= j < galaxies.len() && #[trigger] galaxies[j]@.contains(p) ==> 0
                            <= p.row < height && 0 <= p.column < width,
                    forall|q: Position|
                        universe.inside(q) ==> #[trigger] universe.id_at(q) == (if members@.subrange(
                            0,
                            k as int,
                        ).contains(q) {
                            id
                        } else {
                            start.id_at(q)
                        }),
                decreases members.len() - k,
            {
                let p = members[k];
                proof {
                    assert(members@.to_set().contains(p));
                    assert(galaxies[id as int]@.contains(p));
                    lemma_prefix_contains(members@, k as int);
                }
                universe.set_id(&p, id);
                k += 1;
            }
            proof {
                assert(members@.subrange(0, members@.len() as int) =~= members@);
                let shorter = galaxies@.subrange(0, id as int);
                let longer = galaxies@.subrange(0, id + 1);
                assert forall|p: Position, index: int|
                    #[trigger] Universe::last_with(longer, p, index) implies universe.id_at(p)
                    == index by {
                    assert(longer[index] == galaxies[index]);
                    assert(galaxies[index]@.contains(p));
                    assert(universe.inside(p));
                    assert(members@.to_set().contains(p) <==> members@.contains(p));
                    if index < id {
                        assert(!longer[id as int]@.contains(p));
                        assert forall|j: int| index < j < shorter.len() implies !(
                        #[trigger] shorter[j])@.contains(p) by {
                            assert(shorter[j] == longer[j]);
                        }
                        assert(shorter[index] == longer[index]);
                        assert(Universe::last_with(shorter, p, index));
                    }
                }
                assert forall|p: Position|
                    universe.inside(p) && (forall|j: int|
                        0 <= j < id + 1 ==> !(#[trigger] galaxies[j])@.contains(
                            p,
                        )) implies #[trigger] universe.id_at(p) == p.row * width + p.column by {
                    assert(!galaxies[id as int]@.contains(p));
                    assert(members@.to_set().contains(p) <==> members@.contains(p));
                    assert forall|j: int| 0 <= j < id implies !(#[trigger] galaxies[j])@.contains(
                        p,
                    ) by {}
                }
            }
            id += 1;
        }
        proof {
            assert(galaxies@.subrange(0, galaxies@.len() as int) =~= galaxies@);
        }
        universe
    }
}

/// There are as many entries as the universe has cells.
proof fn lemma_entry_count(universe: &Universe, entries: Seq<(Position, usize)>)
    requires
        universe.wf(),
        forall|k: int| 0 <= k < entries.len() ==> universe.inside((#[trigger] entries[k]).0),
        forall|i: int, j: int|
            0 <= i < j < entries.len() ==> (#[trigger] entries[i]).0.precedes(
                (#[trigger] entries[j]).0,
            ),
    ensures
        entries.len() <= universe.rows() * universe.columns(),
{
    let all = crate::rectangle::Rectangle {
        min_row: 0,
        max_row: universe.rows() as i32,
        min_column: 0,
        max_column: universe.columns() as i32,
    };
    lemma_rectangle_finite(all);
    let cells = entries.map_values(|e: (Position, usize)| e.0);
    assert(cells.no_duplicates()) by {
        assert forall|i: int, j: int| 0 <= i < cells.len() && 0 <= j < cells.len() && i
            != j implies cells[i] != cells[j] by {
            if i < j {
                assert(entries[i].0.precedes(entries[j].0));
            } else {
                assert(entries[j].0.precedes(entries[i].0));
            }
        }
    }
    cells.unique_seq_to_set();
    assert(cells.len() == entries.len());
    assert(all.cell_count() == universe.rows() * universe.columns()) by (nonlinear_arith)
        requires
            all.cell_count() == all.columns() * all.rows(),
            all.columns() == universe.columns(),
            all.rows() == universe.rows(),
    ;
    assert(cells.to_set().subset_of(all.cells())) by {
        assert forall|p: Position| cells.to_set().contains(p) implies all.cells().contains(p) by {
            let k = choose|k: int| 0 <= k < cells.len() && cells[k] == p;
            assert(universe.inside(entries[k].0));
        }
    }
    vstd::set_lib::lemma_len_subset(cells.to_set(), all.cells());
}

/// A rectangle has finitely many cells: as many as its rows times its columns.
pub proof fn lemma_rectangle_finite(r: crate::rectangle::Rectangle)
    ensures
        r.cells().finite(),
        r.cells().len() == r.cell_count(),
    decreases r.rows(),
{
    if r.rows() == 0 || r.columns() == 0 {
        assert(r.cells() =~= Set::<Position>::empty());
        assert(r.cell_count() == 0) by (nonlinear_arith)
            requires
                r.cell_count() == r.columns() * r.rows(),
                r.rows() == 0 || r.columns() == 0,
        ;
    } else {
        let upper = crate::rectangle::Rectangle { max_row: (r.max_row - 1) as i32, ..r };
        lemma_rectangle_finite(upper);
        let last = crate::rectangle::Rectangle { min_row: (r.max_row - 1) as i32, ..r };
        lemma_row_finite(last);
        assert(r.cells() =~= upper.cells().union(last.cells()));
        assert(upper.cells().disjoint(last.cells()));
        vstd::set_lib::lemma_set_disjoint_lens(upper.cells(), last.cells());
        assert(r.cell_count() == upper.cell_count() + r.columns()) by (nonlinear_arith)
            requires
                r.cell_count() == r.columns() * r.rows(),
                upper.cell_count() == r.columns() * (r.rows() - 1),
        ;
    }
}

/// A rectangle of one row has as many cells as columns.
proof fn lemma_row_finite(r: crate::rectangle::Rectangle)
    requires
        r.max_row == r.min_row + 1,
    ensures
        r.cells().finite(),
        r.cells().len() == r.columns(),
    decreases r.columns(),
{
    if r.columns() == 0 {
        assert(r.cells() =~= Set::<Position>::empty());
    } else {
        let shorter = crate::rectangle::Rectangle { max_column: (r.max_column - 1) as i32, ..r };
        lemma_row_finite(shorter);
        let last = Position { row: r.min_row, column: (r.max_column - 1) as i32 };
        assert(r.cells() =~= shorter.cells().insert(last));
    }
}

} // verus!

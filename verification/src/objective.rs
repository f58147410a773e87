//! Objectives: what a player is given, the centers of the galaxies and the walls
//! that are already in place.
use vstd::prelude::*;

use crate::border::Border;
use crate::galaxy::center_of;
use crate::ordered::{Ordered, SortedSet};
use crate::position::{Position, COORDINATE_LIMIT};
use crate::text::{chars_of, lines_of, split_lines, string_of};
use crate::universe::Universe;

verus! {

/// The center of a galaxy on the half-step lattice, with the size of the galaxy
/// where it is given.
#[derive(Debug, Eq, PartialEq, Copy, Clone, Ord, PartialOrd, Hash, Structural)]
pub struct GalaxyCenter {
    pub position: Position,
    pub size: Option<usize>,
}

impl GalaxyCenter {
    /// The center at `position`, of a galaxy of unknown size.
    pub fn from(position: Position) -> (center: GalaxyCenter)
        ensures
            center == (GalaxyCenter { position, size: None }),
    {
        GalaxyCenter { position, size: None }
    }

    /// Centers order by their position, then by their size; an unknown size
    /// comes first.
    pub open spec fn precedes(self, other: GalaxyCenter) -> bool {
        self.position.precedes(other.position) || (self.position == other.position && (match (
            self.size,
            other.size,
        ) {
            (None, Some(_)) => true,
            (Some(a), Some(b)) => a < b,
            _ => false,
        }))
    }

    /// Whether this center comes before `other` in the order of centers.
    pub fn is_before(&self, other: &GalaxyCenter) -> (b: bool)
        ensures
            b == self.precedes(*other),
    {
        if self.position.is_before(&other.position) {
            true
        } else if self.position == other.position {
            match (self.size, other.size) {
                (None, Some(_)) => true,
                (Some(a), Some(b)) => a < b,
                _ => false,
            }
        } else {
            false
        }
    }
}

impl Ordered for GalaxyCenter {
    open spec fn before(self, other: Self) -> bool {
        self.precedes(other)
    }

    proof fn lemma_order(a: Self, b: Self, c: Self) {
    }

    fn comes_before(&self, other: &Self) -> (r: bool) {
        self.is_before(other)
    }

    fn equals(&self, other: &Self) -> (r: bool) {
        *self == *other
    }
}

/// Why an objective cannot be used with a grid.
#[derive(Clone, Copy, Debug, PartialEq, Eq, Structural)]
pub enum InvalidInput {
    /// The grid has no rows or no columns.
    EmptyGrid,
    /// One of the cells around a center lies outside the grid.
    CenterOutOfBounds,
    /// Two centers share one of the cells around them.
    OverlappingCenters,
}

/// All cells around all centers lie within a grid of `rows` rows and `columns`
/// columns.
pub open spec fn centers_inside(centers: Set<GalaxyCenter>, rows: int, columns: int) -> bool {
    forall|c: GalaxyCenter, p: Position|
        centers.contains(c) && #[trigger] c.position.surrounds(p) ==> 0 <= p.row < rows && 0
            <= p.column < columns
}

/// No two centers share one of the cells around them.
pub open spec fn centers_apart(centers: Set<GalaxyCenter>) -> bool {
    forall|a: GalaxyCenter, b: GalaxyCenter, p: Position|
        centers.contains(a) && centers.contains(b) && a != b && #[trigger] a.position.surrounds(p)
            ==> !#[trigger] b.position.surrounds(p)
}

/// One of the centers lies at the half-step position `p`.
pub open spec fn has_center(centers: Set<GalaxyCenter>, p: Position) -> bool {
    exists|c: GalaxyCenter| centers.contains(c) && c.position == p
}

/// The mark of a center in a drawn objective.
pub const CENTER_MARK: char = '●';

/// The mark of a corner of the grid in a drawn objective.
pub const CORNER_MARK: char = '·';

/// A drawn objective marks a center at the half-step position `p`: the line
/// after the frame line and `p.row` more lines holds `CENTER_MARK` where two
/// characters precede it for the frame and for each half column before it.
pub open spec fn center_marked(lines: Seq<Seq<char>>, p: Position) -> bool {
    &&& 0 <= p.row
    &&& p.row + 1 < lines.len()
    &&& 0 <= p.column
    &&& (2 * p.column + 2 < lines[p.row + 1].len() && lines[p.row + 1][2 * p.column + 2]
        == CENTER_MARK) || (2 * p.column + 3 < lines[p.row + 1].len() && lines[p.row + 1][2
        * p.column + 3] == CENTER_MARK)
}

/// The number of columns, and of rows, of the grid that `to_string` draws.
pub const DRAWN_SIZE: usize = 10;

/// The character that a drawn objective shows at the half-step position `p`.
pub open spec fn mark_at(centers: Set<GalaxyCenter>, p: Position) -> char {
    if has_center(centers, p) {
        CENTER_MARK
    } else if p.row % 2 == 1 && p.column % 2 == 1 {
        CORNER_MARK
    } else {
        ' '
    }
}

/// The first or the last line of a drawn objective: a frame line from `first`
/// over `middle` to `last`.
pub open spec fn frame_line(first: char, middle: char, last: char) -> Seq<char> {
    Seq::new(
        (4 * DRAWN_SIZE + 1) as nat,
        |i: int|
            if i == 0 {
                first
            } else if i == 4 * DRAWN_SIZE {
                last
            } else if i % 4 == 0 {
                middle
            } else {
                '─'
            },
    )
}

/// The line of a drawn objective for the half-step row `row`.
pub open spec fn content_line(centers: Set<GalaxyCenter>, row: int) -> Seq<char> {
    Seq::new(
        (4 * DRAWN_SIZE + 1) as nat,
        |i: int|
            if i == 0 {
                if row % 2 == 0 {
                    '│'
                } else {
                    '├'
                }
            } else if i == 4 * DRAWN_SIZE {
                if row % 2 == 0 {
                    '│'
                } else {
                    '┤'
                }
            } else if i % 2 == 1 {
                ' '
            } else {
                mark_at(centers, Position { row: row as i32, column: ((i - 2) / 2) as i32 })
            },
    )
}

/// The lines of a drawn objective from the half-step row `from` on, each with its
/// line feed, and the closing frame line.
pub open spec fn drawn_from(centers: Set<GalaxyCenter>, from: int) -> Seq<char>
    decreases 2 * DRAWN_SIZE - 1 - from,
{
    if from >= 2 * DRAWN_SIZE - 1 {
        frame_line('└', '┴', '┘')
    } else {
        content_line(centers, from) + seq!['\n'] + drawn_from(centers, from + 1)
    }
}

/// The drawing of an objective on a grid of `DRAWN_SIZE` rows and columns.
pub open spec fn drawn_objective(centers: Set<GalaxyCenter>) -> Seq<char> {
    frame_line('┌', '┬', '┐') + seq!['\n'] + drawn_from(centers, 0)
}

/// What a player is given: the centers of the galaxies, and the walls that are
/// in place from the start.
#[derive(Clone, Debug, PartialEq, Eq)]
pub struct Objective {
    centers: SortedSet<GalaxyCenter>,
    walls: SortedSet<Border>,
}

impl Objective {
    /// The centers.
    pub closed spec fn centers(&self) -> Set<GalaxyCenter> {
        self.centers@
    }

    /// The centers in ascending order.
    pub closed spec fn center_seq(&self) -> Seq<GalaxyCenter> {
        self.centers.elements()
    }

    /// The walls.
    pub closed spec fn walls(&self) -> Set<Border> {
        self.walls@
    }

    /// The walls in ascending order.
    pub closed spec fn wall_seq(&self) -> Seq<Border> {
        self.walls.elements()
    }

    /// The centers and the walls are held in order.
    pub closed spec fn wf(&self) -> bool {
        self.centers.wf() && self.walls.wf()
    }

    /// `center_seq` lists the centers, and `wall_seq` the walls, each once.
    pub proof fn lemma_listed(&self)
        requires
            self.wf(),
        ensures
            self.center_seq().no_duplicates(),
            self.center_seq().to_set() == self.centers(),
            crate::ordered::ascending(self.center_seq()),
            self.wall_seq().no_duplicates(),
            self.wall_seq().to_set() == self.walls(),
    {
        self.centers.lemma_size();
        self.walls.lemma_size();
    }

    /// The objective without centers and walls.
    pub fn new() -> (objective: Objective)
        ensures
            objective.wf(),
            objective.centers() == Set::<GalaxyCenter>::empty(),
            objective.walls() == Set::<Border>::empty(),
    {
        Objective { centers: SortedSet::new(), walls: SortedSet::new() }
    }

    /// The objective of the given centers and walls.
    pub fn from_parts(centers: &Vec<GalaxyCenter>, walls: &Vec<Border>) -> (objective: Objective)
        ensures
            objective.wf(),
            objective.centers() == centers@.to_set(),
            objective.walls() == walls@.to_set(),
    {
        let mut objective = Objective::new();
        let mut i: usize = 0;
        while i < centers.len()
            invariant
                i <= centers.len(),
                objective.wf(),
                objective.centers() == centers@.subrange(0, i as int).to_set(),
                objective.walls() == Set::<Border>::empty(),
            decreases centers.len() - i,
        {
            proof {
                crate::reach::lemma_prefix_contains(centers@, i as int);
            }
            objective.add_center(centers[i]);
            i += 1;
            assert(objective.centers() =~= centers@.subrange(0, i as int).to_set());
        }
        assert(centers@.subrange(0, centers.len() as int) =~= centers@);
        let mut j: usize = 0;
        while j < walls.len()
            invariant
                j <= walls.len(),
                objective.wf(),
                objective.centers() == centers@.to_set(),
                objective.walls() == walls@.subrange(0, j as int).to_set(),
            decreases walls.len() - j,
        {
            proof {
                crate::reach::lemma_prefix_contains(walls@, j as int);
            }
            objective.add_wall(walls[j]);
            j += 1;
            assert(objective.walls() =~= walls@.subrange(0, j as int).to_set());
        }
        assert(walls@.subrange(0, walls.len() as int) =~= walls@);
        objective
    }

    /// Adds a center.
    pub fn add_center(&mut self, center: GalaxyCenter)
        requires
            old(self).wf(),
        ensures
            final(self).wf(),
            final(self).centers() == old(self).centers().insert(center),
            final(self).walls() == old(self).walls(),
    {
        self.centers.insert(center);
    }

    /// Adds a wall.
    pub fn add_wall(&mut self, wall: Border)
        requires
            old(self).wf(),
        ensures
            final(self).wf(),
            final(self).walls() == old(self).walls().insert(wall),
            final(self).centers() == old(self).centers(),
    {
        self.walls.insert(wall);
    }

    /// Whether `wall` is one of the walls.
    pub fn has_wall(&self, wall: &Border) -> (b: bool)
        requires
            self.wf(),
        ensures
            b == self.walls().contains(*wall),
    {
        self.walls.contains(wall)
    }

    /// The centers in ascending order.
    pub fn get_centers(&self) -> (centers: Vec<GalaxyCenter>)
        ensures
            centers@ == self.center_seq(),
    {
        self.centers.to_vec()
    }

    /// The walls in ascending order.
    pub fn get_walls(&self) -> (walls: Vec<Border>)
        ensures
            walls@ == self.wall_seq(),
    {
        self.walls.to_vec()
    }

    /// The objective of a universe: the center of each of its galaxies, without
    /// the sizes, and no walls.
    pub fn generate(universe: &Universe) -> (objective: Objective)
        requires
            universe.wf(),
        ensures
            objective.wf(),
            objective.walls() == Set::<Border>::empty(),
            forall|c: GalaxyCenter|
                objective.centers().contains(c) <==> c.size is None && exists|p: Position|
                    universe.inside(p) && c.position == center_of(#[trigger] universe.galaxy_at(p)),
    {
        let galaxies = universe.get_galaxies();
        let mut objective = Objective::new();
        let mut i: usize = 0;
        while i < galaxies.len()
            invariant
                i <= galaxies.len(),
                objective.wf(),
                objective.walls() == Set::<Border>::empty(),
                forall|k: int| 0 <= k < galaxies@.len() ==> (#[trigger] galaxies@[k]).wf(),
                forall|c: GalaxyCenter|
                    #![trigger objective.centers().contains(c)]
                    objective.centers().contains(c) <==> c.size is None && exists|k: int|
                        0 <= k < i && c.position == center_of((#[trigger] galaxies@[k])@),
            decreases galaxies.len() - i,
        {
            let center = GalaxyCenter { position: galaxies[i].center(), size: None };
            let ghost before = objective.centers();
            objective.add_center(center);
            proof {
                assert forall|c: GalaxyCenter|
                    #![trigger objective.centers().contains(c)]
                    objective.centers().contains(c) <==> c.size is None && exists|k: int|
                        0 <= k < i + 1 && c.position == center_of((#[trigger] galaxies@[k])@) by {
                    if before.contains(c) {
                        let k = choose|k: int|
                            0 <= k < i && c.position == center_of((#[trigger] galaxies@[k])@);
                        assert(c.position == center_of(galaxies@[k]@));
                    }
                    if c == center {
                        assert(c.position == center_of(galaxies@[i as int]@));
                    }
                    if c.size is None && exists|k: int|
                        0 <= k < i + 1 && c.position == center_of((#[trigger] galaxies@[k])@) {
                        let k = choose|k: int|
                            0 <= k < i + 1 && c.position == center_of((#[trigger] galaxies@[k])@);
                        if k < i {
                            assert(before.contains(c));
                        } else {
                            assert(c == center);
                        }
                    }
                }
            }
            i += 1;
        }
        proof {
            assert forall|c: GalaxyCenter|
                objective.centers().contains(c) <==> c.size is None && exists|p: Position|
                    universe.inside(p) && c.position == center_of(
                        #[trigger] universe.galaxy_at(p),
                    ) by {
                if objective.centers().contains(c) {
                    let k = choose|k: int|
                        0 <= k < i && c.position == center_of((#[trigger] galaxies@[k])@);
                    assert(universe.is_galaxy(galaxies@[k]@));
                    let p = choose|p: Position|
                        universe.inside(p) && #[trigger] universe.galaxy_at(p) == galaxies@[k]@;
                    assert(c.position == center_of(universe.galaxy_at(p)));
                }
                if c.size is None && exists|p: Position|
                    universe.inside(p) && c.position == center_of(
                        #[trigger] universe.galaxy_at(p),
                    ) {
                    let p = choose|p: Position|
                        universe.inside(p) && c.position == center_of(
                            #[trigger] universe.galaxy_at(p),
                        );
                    let k = choose|k: int|
                        0 <= k < galaxies@.len() && (#[trigger] galaxies@[k])@
                            == universe.galaxy_at(p);
                    assert(c.position == center_of(galaxies@[k]@));
                }
            }
        }
        objective
    }

    /// Reads a drawn objective. The first line is the frame; every further line
    /// stands for one half-step row, and in it two characters stand for each
    /// half-step column, behind one character for the frame. A `CENTER_MARK`
    /// marks a center. The objective has no walls, and its centers no sizes.
    pub fn from_string(string: &str) -> (objective: Objective)
        requires
            lines_of(string@).len() <= 2 * COORDINATE_LIMIT + 2,
            forall|i: int|
                0 <= i < lines_of(string@).len() ==> (#[trigger] lines_of(string@)[i]).len() <= 4
                    * COORDINATE_LIMIT + 4,
            forall|i: int|
                1 <= i < lines_of(string@).len() && lines_of(string@)[i].len() > 1 ==> (
                #[trigger] lines_of(string@)[i])[1] != CENTER_MARK,
        ensures
            objective.wf(),
            objective.walls() == Set::<Border>::empty(),
            forall|c: GalaxyCenter|
                objective.centers().contains(c) <==> c.size is None && center_marked(
                    lines_of(string@),
                    c.position,
                ),
    {
        let text = chars_of(string);
        let lines = split_lines(&text);
        let ghost all = lines_of(string@);
        let mut objective = Objective::new();
        let mut row: usize = 1;
        while row < lines.len()
            invariant
                1 <= row,
                lines@.len() == all.len(),
                lines@.len() <= 2 * COORDINATE_LIMIT + 2,
                forall|i: int| 0 <= i < lines@.len() ==> (#[trigger] lines@[i])@ == all[i],
                forall|i: int|
                    0 <= i < lines@.len() ==> (#[trigger] lines@[i])@.len() <= 4 * COORDINATE_LIMIT
                        + 4,
                forall|i: int| 1 <= i < all.len() && all[i].len() > 1 ==> (#[trigger] all[i])[1] != CENTER_MARK,
                objective.wf(),
                objective.walls() == Set::<Border>::empty(),
                forall|c: GalaxyCenter|
                    #![trigger objective.centers().contains(c)]
                    objective.centers().contains(c) <==> c.size is None && center_marked(
                        all,
                        c.position,
                    ) && c.position.row + 1 < row,
            decreases lines.len() - row,
        {
            let line = &lines[row];
            let mut at: usize = 2;
            while at < line.len()
                invariant
                    1 <= row < lines.len(),
                    lines@.len() == all.len(),
                    lines@.len() <= 2 * COORDINATE_LIMIT + 2,
                    line@ == all[row as int],
                    line@.len() <= 4 * COORDINATE_LIMIT + 4,
                    line@.len() > 1 ==> line@[1] != CENTER_MARK,
                    2 <= at,
                    objective.wf(),
                    objective.walls() == Set::<Border>::empty(),
                    forall|c: GalaxyCenter|
                        #![trigger objective.centers().contains(c)]
                        objective.centers().contains(c) <==> c.size is None && center_marked(
                            all,
                            c.position,
                        ) && (c.position.row + 1 < row || (c.position.row + 1 == row && exists|
                            j: int,
                        |
                            2 <= j < at && j < line@.len() && #[trigger] line@[j] == CENTER_MARK
                                && c.position.column == (j - 2) / 2)),
                decreases line.len() - at,
            {
                if line[at] == CENTER_MARK {
                    let half_column: usize = (at - 2) / 2;
                    let center = GalaxyCenter {
                        position: Position::at(row - 1, half_column),
                        size: None,
                    };
                    let ghost before = objective.centers();
                    objective.add_center(center);
                    proof {
                        assert(line@[at as int] == CENTER_MARK);
                        assert(center_marked(all, center.position));
                    }
                }
                proof {
                    assert forall|c: GalaxyCenter|
                        #![trigger objective.centers().contains(c)]
                        objective.centers().contains(c) <==> c.size is None && center_marked(
                            all,
                            c.position,
                        ) && (c.position.row + 1 < row || (c.position.row + 1 == row && exists|
                            j: int,
                        |
                            2 <= j < at + 1 && j < line@.len() && #[trigger] line@[j]
                                == CENTER_MARK && c.position.column == (j - 2) / 2)) by {
                        if objective.centers().contains(c) && c.position.row + 1 == row {
                            if line@[at as int] == CENTER_MARK && c.position.column == (at - 2)
                                / 2 {
                                assert(line@[at as int] == CENTER_MARK);
                            } else {
                                let j = choose|j: int|
                                    2 <= j < at && j < line@.len() && #[trigger] line@[j]
                                        == CENTER_MARK && c.position.column == (j - 2) / 2;
                                assert(line@[j] == CENTER_MARK);
                            }
                        }
                        if c.size is None && center_marked(all, c.position) && c.position.row + 1
                            == row && exists|j: int|
                            2 <= j < at + 1 && j < line@.len() && #[trigger] line@[j]
                                == CENTER_MARK && c.position.column == (j - 2) / 2 {
                            let j = choose|j: int|
                                2 <= j < at + 1 && j < line@.len() && #[trigger] line@[j]
                                    == CENTER_MARK && c.position.column == (j - 2) / 2;
                            if j < at {
                                assert(line@[j] == CENTER_MARK);
                            }
                        }
                    }
                }
                at += 1;
            }
            proof {
                assert forall|c: GalaxyCenter|
                    #![trigger objective.centers().contains(c)]
                    objective.centers().contains(c) <==> c.size is None && center_marked(
                        all,
                        c.position,
                    ) && c.position.row + 1 < row + 1 by {
                    if c.size is None && center_marked(all, c.position) && c.position.row + 1
                        == row {
                        let j = if 2 * c.position.column + 2 < line@.len() && line@[2
                            * c.position.column + 2] == CENTER_MARK {
                            2 * c.position.column + 2
                        } else {
                            2 * c.position.column + 3
                        };
                        assert(line@[j] == CENTER_MARK);
                    }
                }
            }
            row += 1;
        }
        objective
    }

    /// Whether one of the cells around the half-step center `center` lies outside
    /// a grid of `height` rows and `width` columns.
    fn sticks_out(center: &Position, width: usize, height: usize) -> (b: bool)
        ensures
            b == exists|p: Position|
                #[trigger] center.surrounds(p) && !(0 <= p.row < height && 0 <= p.column < width),
    {
        let footprint = center.get_center_placement().get_positions(center);
        let mut i: usize = 0;
        while i < footprint.len()
            invariant
                i <= footprint.len(),
                forall|p: Position| footprint@.contains(p) <==> center.surrounds(p),
                forall|k: int|
                    0 <= k < i ==> 0 <= (#[trigger] footprint@[k]).row < height && 0
                        <= footprint@[k].column < width,
            decreases footprint.len() - i,
        {
            let p = footprint[i];
            if !(p.row >= 0 && (p.row as usize) < height && p.column >= 0 && (p.column as usize)
                < width) {
                assert(footprint@.contains(p));
                assert(center.surrounds(p));
                return true;
            }
            i += 1;
        }
        proof {
            assert forall|p: Position| #[trigger] center.surrounds(p) implies 0 <= p.row < height
                && 0 <= p.column < width by {
                assert(footprint@.contains(p));
                let k = choose|k: int| 0 <= k < footprint@.len() && footprint@[k] == p;
                assert(footprint@[k] == p);
            }
        }
        false
    }

    /// Whether the half-step centers `a` and `b` share one of the cells around
    /// them.
    fn share_cell(a: &Position, b: &Position) -> (shared: bool)
        ensures
            shared == exists|p: Position| #[trigger] a.surrounds(p) && b.surrounds(p),
    {
        let footprint = a.get_center_placement().get_positions(a);
        let other = b.get_center_placement().get_positions(b);
        let mut i: usize = 0;
        while i < footprint.len()
            invariant
                i <= footprint.len(),
                forall|p: Position| footprint@.contains(p) <==> a.surrounds(p),
                forall|p: Position| other@.contains(p) <==> b.surrounds(p),
                forall|k: int| 0 <= k < i ==> !b.surrounds(#[trigger] footprint@[k]),
            decreases footprint.len() - i,
        {
            let p = footprint[i];
            assert(footprint@.contains(p));
            let mut j: usize = 0;
            while j < other.len()
                invariant
                    j <= other.len(),
                    a.surrounds(p),
                    forall|q: Position| other@.contains(q) <==> b.surrounds(q),
                    forall|m: int| 0 <= m < j ==> #[trigger] other@[m] != p,
                decreases other.len() - j,
            {
                if other[j] == p {
                    assert(other@.contains(p));
                    assert(a.surrounds(p) && b.surrounds(p));
                    return true;
                }
                j += 1;
            }
            proof {
                if b.surrounds(p) {
                    assert(other@.contains(p));
                    let m = choose|m: int| 0 <= m < other@.len() && other@[m] == p;
                    assert(other@[m] != p);
                }
            }
            i += 1;
        }
        proof {
            assert forall|p: Position| !(#[trigger] a.surrounds(p) && b.surrounds(p)) by {
                if a.surrounds(p) {
                    assert(footprint@.contains(p));
                    let k = choose|k: int| 0 <= k < footprint@.len() && footprint@[k] == p;
                    assert(!b.surrounds(footprint@[k]));
                }
            }
        }
        false
    }

    /// Checks that the objective can be used with a grid of `width` columns and
    /// `height` rows: the grid has cells, the cells around every center lie
    /// within it, and no two centers share one of them.
    pub fn check(&self, width: usize, height: usize) -> (result: Result<(), InvalidInput>)
        requires
            self.wf(),
        ensures
            match result {
                Ok(_) => width >= 1 && height >= 1 && centers_inside(
                    self.centers(),
                    height as int,
                    width as int,
                ) && centers_apart(self.centers()),
                Err(InvalidInput::EmptyGrid) => width == 0 || height == 0,
                Err(InvalidInput::CenterOutOfBounds) => width >= 1 && height >= 1
                    && !centers_inside(self.centers(), height as int, width as int),
                Err(InvalidInput::OverlappingCenters) => width >= 1 && height >= 1
                    && centers_inside(self.centers(), height as int, width as int)
                    && !centers_apart(self.centers()),
            },
    {
        if width == 0 || height == 0 {
            return Err(InvalidInput::EmptyGrid);
        }
        if !self.fits(width, height) {
            return Err(InvalidInput::CenterOutOfBounds);
        }
        let mut i: usize = 0;
        proof {
            self.centers.lemma_size();
        }
        while i < self.centers.len()
            invariant
                self.wf(),
                width >= 1,
                height >= 1,
                centers_inside(self.centers(), height as int, width as int),
                i <= self.center_seq().len(),
                self.center_seq().to_set() == self.centers(),
                self.center_seq().no_duplicates(),
                forall|k: int, m: int, p: Position|
                    0 <= k < i && 0 <= m < self.center_seq().len() && k != m
                        && #[trigger] self.center_seq()[k].position.surrounds(p)
                        ==> !#[trigger] self.center_seq()[m].position.surrounds(p),
            decreases self.center_seq().len() - i,
        {
            let a = self.centers.get(i);
            let mut j: usize = 0;
            while j < self.centers.len()
                invariant
                    self.wf(),
                    width >= 1,
                    height >= 1,
                    centers_inside(self.centers(), height as int, width as int),
                    i < self.center_seq().len(),
                    j <= self.center_seq().len(),
                    a == self.center_seq()[i as int],
                    self.center_seq().to_set() == self.centers(),
                    self.center_seq().no_duplicates(),
                    forall|m: int, p: Position|
                        0 <= m < j && m != i && #[trigger] a.position.surrounds(p)
                            ==> !#[trigger] self.center_seq()[m].position.surrounds(p),
                decreases self.center_seq().len() - j,
            {
                let b = self.centers.get(j);
                if j != i && Objective::share_cell(&a.position, &b.position) {
                    proof {
                        let p = choose|p: Position|
                            #[trigger] a.position.surrounds(p) && b.position.surrounds(p);
                        assert(self.centers().contains(a) && self.centers().contains(b));
                        assert(a != b);
                        assert(a.position.surrounds(p) && b.position.surrounds(p));
                    }
                    return Err(InvalidInput::OverlappingCenters);
                }
                j += 1;
            }
            i += 1;
        }
        proof {
            assert forall|a: GalaxyCenter, b: GalaxyCenter, p: Position|
                self.centers().contains(a) && self.centers().contains(b) && a != b
                    && #[trigger] a.position.surrounds(p) implies !#[trigger] b.position.surrounds(
                p,
            ) by {
                assert(self.center_seq().to_set().contains(a));
                assert(self.center_seq().to_set().contains(b));
                let k = choose|k: int|
                    0 <= k < self.center_seq().len() && self.center_seq()[k] == a;
                let m = choose|m: int|
                    0 <= m < self.center_seq().len() && self.center_seq()[m] == b;
                assert(self.center_seq()[k].position.surrounds(p));
            }
        }
        Ok(())
    }

    /// Whether the cells around every center lie within a grid of `width`
    /// columns and `height` rows.
    pub fn fits(&self, width: usize, height: usize) -> (b: bool)
        requires
            self.wf(),
        ensures
            b == centers_inside(self.centers(), height as int, width as int),
    {
        let mut i: usize = 0;
        proof {
            self.centers.lemma_size();
        }
        while i < self.centers.len()
            invariant
                self.wf(),
                i <= self.center_seq().len(),
                self.center_seq().to_set() == self.centers(),
                forall|k: int, p: Position|
                    0 <= k < i && #[trigger] self.center_seq()[k].position.surrounds(p) ==> 0
                        <= p.row < height && 0 <= p.column < width,
            decreases self.center_seq().len() - i,
        {
            let center = self.centers.get(i);
            if Objective::sticks_out(&center.position, width, height) {
                proof {
                    let p = choose|p: Position|
                        #[trigger] center.position.surrounds(p) && !(0 <= p.row < height && 0
                            <= p.column < width);
                    assert(self.centers().contains(center));
                    assert(center.position.surrounds(p));
                }
                return false;
            }
            i += 1;
        }
        proof {
            assert forall|c: GalaxyCenter, p: Position|
                self.centers().contains(c) && #[trigger] c.position.surrounds(p) implies 0
                <= p.row < height && 0 <= p.column < width by {
                assert(self.center_seq().to_set().contains(c));
                let k = choose|k: int|
                    0 <= k < self.center_seq().len() && self.center_seq()[k] == c;
                assert(self.center_seq()[k].position.surrounds(p));
            }
        }
        true
    }

    /// Draws the objective on a grid of `DRAWN_SIZE` rows and columns: a frame,
    /// and between its first and its last line one line for each half-step row,
    /// with a `CENTER_MARK` at each center and a `CORNER_MARK` at each corner
    /// of the grid that is no center.
    pub fn to_string(&self) -> (s: String)
        requires
            self.wf(),
        ensures
            s@ == drawn_objective(self.centers()),
    {
        let positions = self.center_positions();
        let mut text: Vec<char> = Vec::new();
        let top = Objective::frame('┌', '┬', '┐');
        let mut i: usize = 0;
        while i < top.len()
            invariant
                i <= top.len(),
                text@ == top@.subrange(0, i as int),
            decreases top.len() - i,
        {
            text.push(top[i]);
            i += 1;
            assert(text@ =~= top@.subrange(0, i as int));
        }
        assert(top@.subrange(0, top.len() as int) =~= top@);
        text.push('\n');
        let ghost head = text@;
        let ghost centers = self.centers();
        let mut row: usize = 0;
        while row < 2 * DRAWN_SIZE - 1
            invariant
                row <= 2 * DRAWN_SIZE - 1,
                positions.wf(),
                centers == self.centers(),
                forall|p: Position| positions@.contains(p) <==> has_center(centers, p),
                head + drawn_from(centers, 0) == text@ + drawn_from(centers, row as int),
            decreases 2 * DRAWN_SIZE - 1 - row,
        {
            let ghost before = text@;
            let odd: bool = row % 2 == 1;
            let mut line: Vec<char> = Vec::new();
            line.push(if odd { '├' } else { '│' });
            let mut column: usize = 0;
            while column < 2 * DRAWN_SIZE - 1
                invariant
                    column <= 2 * DRAWN_SIZE - 1,
                    row < 2 * DRAWN_SIZE - 1,
                    odd == (row % 2 == 1),
                    positions.wf(),
                    forall|p: Position| positions@.contains(p) <==> has_center(centers, p),
                    line@.len() == 1 + 2 * column,
                    forall|k: int|
                        0 <= k < line@.len() ==> #[trigger] line@[k] == content_line(
                            centers,
                            row as int,
                        )[k],
                decreases 2 * DRAWN_SIZE - 1 - column,
            {
                line.push(' ');
                let p = Position::at(row, column);
                let mark = if positions.contains(&p) {
                    CENTER_MARK
                } else if odd && column % 2 == 1 {
                    CORNER_MARK
                } else {
                    ' '
                };
                assert(mark == mark_at(centers, p));
                line.push(mark);
                column += 1;
            }
            line.push(' ');
            line.push(if odd { '┤' } else { '│' });
            assert(line@ =~= content_line(centers, row as int));
            let mut k: usize = 0;
            while k < line.len()
                invariant
                    k <= line.len(),
                    text@ == before + line@.subrange(0, k as int),
                decreases line.len() - k,
            {
                text.push(line[k]);
                k += 1;
                assert(text@ =~= before + line@.subrange(0, k as int));
            }
            assert(line@.subrange(0, line.len() as int) =~= line@);
            text.push('\n');
            proof {
                assert(text@ + drawn_from(centers, row + 1) =~= before + drawn_from(
                    centers,
                    row as int,
                ));
            }
            row += 1;
        }
        let bottom = Objective::frame('└', '┴', '┘');
        let ghost before = text@;
        let mut j: usize = 0;
        while j < bottom.len()
            invariant
                j <= bottom.len(),
                text@ == before + bottom@.subrange(0, j as int),
            decreases bottom.len() - j,
        {
            text.push(bottom[j]);
            j += 1;
            assert(text@ =~= before + bottom@.subrange(0, j as int));
        }
        proof {
            assert(bottom@.subrange(0, bottom.len() as int) =~= bottom@);
            assert(head =~= frame_line('┌', '┬', '┐') + seq!['\n']);
            assert(text@ =~= drawn_objective(centers));
        }
        string_of(&text)
    }

    /// The positions of the centers.
    pub fn center_positions(&self) -> (positions: SortedSet<Position>)
        requires
            self.wf(),
        ensures
            positions.wf(),
            forall|p: Position| positions@.contains(p) <==> has_center(self.centers(), p),
    {
        let mut positions: SortedSet<Position> = SortedSet::new();
        let mut i: usize = 0;
        proof {
            self.centers.lemma_size();
        }
        while i < self.centers.len()
            invariant
                self.wf(),
                i <= self.center_seq().len(),
                positions.wf(),
                self.center_seq().to_set() == self.centers(),
                forall|p: Position|
                    #![trigger positions@.contains(p)]
                    positions@.contains(p) <==> exists|k: int|
                        0 <= k < i && (#[trigger] self.center_seq()[k]).position == p,
            decreases self.center_seq().len() - i,
        {
            let center = self.centers.get(i);
            let ghost before = positions@;
            positions.insert(center.position);
            proof {
                assert forall|p: Position|
                    #![trigger positions@.contains(p)]
                    positions@.contains(p) <==> exists|k: int|
                        0 <= k < i + 1 && (#[trigger] self.center_seq()[k]).position == p by {
                    if before.contains(p) {
                        let k = choose|k: int|
                            0 <= k < i && (#[trigger] self.center_seq()[k]).position == p;
                        assert(self.center_seq()[k].position == p);
                    }
                    if p == center.position {
                        assert(self.center_seq()[i as int].position == p);
                    }
                    if exists|k: int|
                        0 <= k < i + 1 && (#[trigger] self.center_seq()[k]).position == p {
                        let k = choose|k: int|
                            0 <= k < i + 1 && (#[trigger] self.center_seq()[k]).position == p;
                        if k < i {
                            assert(before.contains(p));
                        }
                    }
                }
            }
            i += 1;
        }
        proof {
            assert forall|p: Position| positions@.contains(p) <==> has_center(
                self.centers(),
                p,
            ) by {
                if positions@.contains(p) {
                    let k = choose|k: int|
                        0 <= k < i && (#[trigger] self.center_seq()[k]).position == p;
                    assert(self.centers().contains(self.center_seq()[k]));
                }
                if exists|c: GalaxyCenter| self.centers().contains(c) && c.position == p {
                    let c = choose|c: GalaxyCenter| self.centers().contains(c) && c.position == p;
                    assert(self.center_seq().to_set().contains(c));
                    let k = choose|k: int|
                        0 <= k < self.center_seq().len() && self.center_seq()[k] == c;
                    assert(self.center_seq()[k].position == p);
                }
            }
        }
        positions
    }

    /// A frame line from `first` over `middle` to `last`.
    fn frame(first: char, middle: char, last: char) -> (line: Vec<char>)
        ensures
            line@ == frame_line(first, middle, last),
    {
        let mut line: Vec<char> = Vec::new();
        let mut i: usize = 0;
        while i <= 4 * DRAWN_SIZE
            invariant
                i <= 4 * DRAWN_SIZE + 1,
                line@.len() == i,
                forall|k: int|
                    0 <= k < i ==> #[trigger] line@[k] == frame_line(first, middle, last)[k],
            decreases 4 * DRAWN_SIZE + 1 - i,
        {
            let c = if i == 0 {
                first
            } else if i == 4 * DRAWN_SIZE {
                last
            } else if i % 4 == 0 {
                middle
            } else {
                '─'
            };
            line.push(c);
            i += 1;
        }
        assert(line@ =~= frame_line(first, middle, last));
        line
    }
}

} // verus!

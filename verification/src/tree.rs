//! Trees over the cells of a galaxy: every cell knows its parent.
use vstd::prelude::*;

use crate::ordered::SortedMap;
use crate::position::{Position, COORDINATE_LIMIT};
use crate::rectangle::{bounding_of, lemma_bounding, Rectangle};
use crate::text::{
    chars_of, draw, drawing, lines_of, marked, split_lines, string_of, trim_blank, trim_end_blank,
    Bars,
};

verus! {

/// The parent that a character of a drawn tree gives the cell `p`: an arrow
/// points at the parent, any other character stands for a root.
pub open spec fn parent_by(c: char, p: Position) -> Option<Position> {
    if c == '>' {
        Some(p.shift(0, 1))
    } else if c == 'v' {
        Some(p.shift(1, 0))
    } else if c == '<' {
        Some(p.shift(0, -1))
    } else if c == '^' {
        Some(p.shift(-1, 0))
    } else {
        None
    }
}

/// The map that holds the entries one after the other: a later entry takes the
/// place of an earlier one with the same cell.
pub open spec fn entries_map(entries: Seq<(Position, Option<Position>)>) -> Map<
    Position,
    Option<Position>,
>
    decreases entries.len(),
{
    if entries.len() == 0 {
        Map::empty()
    } else {
        entries_map(entries.drop_last()).insert(entries.last().0, entries.last().1)
    }
}

/// The parent of `p` in `parents`; `None` where `p` is a root or no cell of the
/// tree.
pub open spec fn parent_in(parents: Map<Position, Option<Position>>, p: Position) -> Option<
    Position,
> {
    if parents.contains_key(p) {
        parents[p]
    } else {
        None
    }
}

/// Whether the wall between the neighbouring cells `a` and `b` is drawn: it is
/// where exactly one of them belongs to the tree, and where both do and neither
/// is the parent of the other.
pub open spec fn parted(parents: Map<Position, Option<Position>>, a: Position, b: Position) -> bool {
    let has_a = parents.contains_key(a);
    let has_b = parents.contains_key(b);
    has_a != has_b || (has_a && parent_in(parents, a) != Some(b) && has_b && parent_in(parents, b)
        != Some(a))
}

/// The arms of the glyph at the corner whose lower right cell is `corner`.
pub open spec fn tree_bars(parents: Map<Position, Option<Position>>, corner: Position) -> Bars {
    let bottom_right = corner;
    let bottom_left = corner.shift(0, -1);
    let top_left = corner.shift(-1, -1);
    let top_right = corner.shift(-1, 0);
    Bars {
        top: parted(parents, top_left, top_right),
        right: parted(parents, top_right, bottom_right),
        bottom: parted(parents, bottom_left, bottom_right),
        left: parted(parents, top_left, bottom_left),
    }
}

/// The glyphs of the corners of the cells of `bounds`, row by row.
pub open spec fn tree_rows(parents: Map<Position, Option<Position>>, bounds: Rectangle) -> Seq<
    Seq<Bars>,
> {
    Seq::new(
        (bounds.rows() + 1) as nat,
        |r: int|
            Seq::new(
                (bounds.columns() + 1) as nat,
                |c: int|
                    tree_bars(
                        parents,
                        Position {
                            row: (bounds.min_row + r) as i32,
                            column: (bounds.min_column + c) as i32,
                        },
                    ),
            ),
    )
}

/// A tree, given by the parent of each of its cells. A root has no parent.
#[derive(Clone, Debug, PartialEq, Eq)]
pub struct Tree {
    parents: SortedMap<Position, Option<Position>>,
}

impl View for Tree {
    type V = Map<Position, Option<Position>>;

    closed spec fn view(&self) -> Map<Position, Option<Position>> {
        self.parents@
    }
}

impl Tree {
    /// The cells are held in row-major order.
    pub closed spec fn ordered(&self) -> bool {
        self.parents.wf()
    }

    /// The cells in row-major order.
    pub closed spec fn cells(&self) -> Seq<Position> {
        self.parents.key_seq()
    }

    /// The tree is well formed: its cells are held in order and lie within the
    /// coordinate limit.
    pub open spec fn wf(&self) -> bool {
        &&& self.ordered()
        &&& self@.dom().finite()
        &&& forall|p: Position| #[trigger] self@.contains_key(p) ==> p.in_range()
    }

    /// Every parent is a cell of the tree.
    pub open spec fn valid(&self) -> bool {
        forall|p: Position|
            #[trigger] self@.contains_key(p) && self@[p] is Some ==> self@.contains_key(
                self@[p]->0,
            )
    }

    /// `cells` lists the cells of the tree, each once.
    pub proof fn lemma_cells(&self)
        requires
            self.ordered(),
        ensures
            self.cells().no_duplicates(),
            self.cells().to_set() == self@.dom(),
            self@.dom().finite(),
            crate::ordered::ascending(self.cells()),
    {
        self.parents.lemma_size();
    }

    /// The tree without cells.
    pub fn new() -> (tree: Tree)
        ensures
            tree.wf(),
            tree@ == Map::<Position, Option<Position>>::empty(),
    {
        Tree { parents: SortedMap::new() }
    }

    /// The tree of the given cells and parents. Of two entries for one cell the
    /// later one counts.
    pub fn from_parents(entries: &Vec<(Position, Option<Position>)>) -> (tree: Tree)
        requires
            forall|i: int| 0 <= i < entries.len() ==> (#[trigger] entries[i]).0.in_range(),
        ensures
            tree.wf(),
            tree@ == entries_map(entries@),
    {
        let mut tree = Tree::new();
        let mut i: usize = 0;
        while i < entries.len()
            invariant
                i <= entries.len(),
                tree.wf(),
                forall|i: int| 0 <= i < entries.len() ==> (#[trigger] entries[i]).0.in_range(),
                tree@ == entries_map(entries@.subrange(0, i as int)),
            decreases entries.len() - i,
        {
            let (position, parent) = entries[i];
            tree.insert(position, parent);
            proof {
                let next = entries@.subrange(0, i + 1);
                assert(next.drop_last() =~= entries@.subrange(0, i as int));
                assert(next.last() == entries@[i as int]);
            }
            i += 1;
        }
        assert(entries@.subrange(0, entries.len() as int) =~= entries@);
        tree
    }

    /// Reads a drawn tree: every character that is no space is a cell at its line
    /// and column; `>`, `v`, `<` and `^` point at the parent, any other character
    /// is a root.
    pub fn from_string(string: &str) -> (tree: Tree)
        requires
            lines_of(string@).len() <= COORDINATE_LIMIT + 1,
            forall|i: int|
                0 <= i < lines_of(string@).len() ==> (#[trigger] lines_of(string@)[i]).len()
                    <= COORDINATE_LIMIT + 1,
        ensures
            tree.wf(),
            forall|p: Position| tree@.contains_key(p) <==> marked(lines_of(string@), p),
            forall|p: Position|
                #[trigger] tree@.contains_key(p) ==> tree@[p] == parent_by(
                    lines_of(string@)[p.row as int][p.column as int],
                    p,
                ),
    {
        let text = chars_of(string);
        let lines = split_lines(&text);
        let ghost all = lines_of(string@);
        let mut tree = Tree::new();
        let mut row: usize = 0;
        while row < lines.len()
            invariant
                row <= lines.len(),
                lines@.len() == all.len(),
                lines@.len() <= COORDINATE_LIMIT + 1,
                forall|i: int| 0 <= i < lines@.len() ==> (#[trigger] lines@[i])@ == all[i],
                forall|i: int|
                    0 <= i < lines@.len() ==> (#[trigger] lines@[i])@.len() <= COORDINATE_LIMIT
                        + 1,
                tree.wf(),
                forall|p: Position|
                    #![trigger tree@.contains_key(p)]
                    tree@.contains_key(p) <==> marked(all, p) && p.row < row,
                forall|p: Position|
                    #[trigger] tree@.contains_key(p) ==> tree@[p] == parent_by(
                        all[p.row as int][p.column as int],
                        p,
                    ),
            decreases lines.len() - row,
        {
            let line = &lines[row];
            let mut column: usize = 0;
            while column < line.len()
                invariant
                    row < lines.len(),
                    line@ == all[row as int],
                    column <= line.len() <= COORDINATE_LIMIT + 1,
                    lines@.len() == all.len(),
                    lines@.len() <= COORDINATE_LIMIT + 1,
                    tree.wf(),
                    forall|p: Position|
                        #![trigger tree@.contains_key(p)]
                        tree@.contains_key(p) <==> marked(all, p) && (p.row < row || (p.row == row
                            && p.column < column)),
                    forall|p: Position|
                        #[trigger] tree@.contains_key(p) ==> tree@[p] == parent_by(
                            all[p.row as int][p.column as int],
                            p,
                        ),
                decreases line.len() - column,
            {
                let c: char = line[column];
                if c != ' ' {
                    let p = Position::at(row, column);
                    let parent = if c == '>' {
                        Some(p.right())
                    } else if c == 'v' {
                        Some(p.down())
                    } else if c == '<' {
                        Some(p.left())
                    } else if c == '^' {
                        Some(p.up())
                    } else {
                        None
                    };
                    tree.insert(p, parent);
                }
                column += 1;
            }
            row += 1;
        }
        tree
    }

    /// Gives `position` the parent `parent`, in place of the one it had.
    pub fn insert(&mut self, position: Position, parent: Option<Position>)
        requires
            old(self).wf(),
            position.in_range(),
        ensures
            final(self).wf(),
            final(self)@ == old(self)@.insert(position, parent),
    {
        self.parents.insert(position, parent);
        proof {
            self.parents.lemma_size();
        }
    }

    /// Whether every parent is itself a cell of the tree.
    pub fn is_valid(&self) -> (b: bool)
        requires
            self.wf(),
        ensures
            b == self.valid(),
    {
        let mut i: usize = 0;
        proof {
            self.parents.lemma_size();
        }
        while i < self.parents.len()
            invariant
                self.wf(),
                i <= self.cells().len(),
                self.cells().to_set() == self@.dom(),
                forall|k: int|
                    0 <= k < i && self@[#[trigger] self.cells()[k]] is Some
                        ==> self@.contains_key(self@[self.cells()[k]]->0),
            decreases self.cells().len() - i,
        {
            let key = self.parents.key_at(i);
            let parent = *self.parents.value_at(i);
            match parent {
                Some(q) => {
                    if !self.parents.contains_key(&q) {
                        return false;
                    }
                },
                None => {},
            }
            i += 1;
        }
        proof {
            assert forall|p: Position|
                #[trigger] self@.contains_key(p) && self@[p] is Some implies self@.contains_key(
                self@[p]->0,
            ) by {
                assert(self.cells().to_set().contains(p));
                let k = choose|k: int| 0 <= k < self.cells().len() && self.cells()[k] == p;
                assert(self.cells()[k] == p);
            }
        }
        true
    }

    pub fn contains(&self, position: &Position) -> (b: bool)
        requires
            self.wf(),
        ensures
            b == self@.contains_key(*position),
    {
        self.parents.contains_key(position)
    }

    /// The parent of `position`; `None` where it is a root or no cell of the
    /// tree.
    pub fn get_parent(&self, position: &Position) -> (parent: Option<Position>)
        requires
            self.wf(),
        ensures
            parent == parent_in(self@, *position),
    {
        match self.parents.get(position) {
            Some(parent) => *parent,
            None => None,
        }
    }

    /// The cells of the tree in row-major order.
    pub fn get_positions(&self) -> (cells: Vec<Position>)
        requires
            self.wf(),
        ensures
            cells@ == self.cells(),
            cells@.to_set() == self@.dom(),
    {
        let mut cells: Vec<Position> = Vec::new();
        let mut i: usize = 0;
        proof {
            self.parents.lemma_size();
        }
        while i < self.parents.len()
            invariant
                self.wf(),
                i <= self.cells().len(),
                cells@ == self.cells().subrange(0, i as int),
            decreases self.cells().len() - i,
        {
            cells.push(self.parents.key_at(i));
            i += 1;
            assert(cells@ =~= self.cells().subrange(0, i as int));
        }
        assert(self.cells().subrange(0, self.cells().len() as int) =~= self.cells());
        cells
    }

    /// The cells of the tree in row-major order, each with its parent.
    pub fn iter(&self) -> (entries: Vec<(Position, Option<Position>)>)
        requires
            self.wf(),
        ensures
            entries@.len() == self.cells().len(),
            forall|i: int|
                0 <= i < entries@.len() ==> (#[trigger] entries@[i]).0 == self.cells()[i]
                    && entries@[i].1 == self@[self.cells()[i]],
    {
        let mut entries: Vec<(Position, Option<Position>)> = Vec::new();
        let mut i: usize = 0;
        while i < self.parents.len()
            invariant
                self.wf(),
                i <= self.cells().len(),
                entries@.len() == i,
                forall|k: int|
                    0 <= k < i ==> (#[trigger] entries@[k]).0 == self.cells()[k] && entries@[k].1
                        == self@[self.cells()[k]],
            decreases self.cells().len() - i,
        {
            entries.push((self.parents.key_at(i), *self.parents.value_at(i)));
            i += 1;
        }
        entries
    }

    /// Whether the wall between the neighbouring cells `a` and `b` is drawn.
    fn is_parted(&self, a: &Position, b: &Position) -> (wall: bool)
        requires
            self.wf(),
        ensures
            wall == parted(self@, *a, *b),
    {
        let has_a = self.contains(a);
        let has_b = self.contains(b);
        if has_a != has_b {
            true
        } else if has_a {
            let parent_a = self.get_parent(a);
            let parent_b = self.get_parent(b);
            let a_under_b = match parent_a {
                Some(q) => q == *b,
                None => false,
            };
            let b_under_a = match parent_b {
                Some(q) => q == *a,
                None => false,
            };
            !a_under_b && !b_under_a
        } else {
            false
        }
    }

    /// The smallest rectangle that holds the cells of the tree.
    pub fn get_bounding_rectangle(&self) -> (bounds: Rectangle)
        requires
            self.wf(),
        ensures
            bounds.bounds(self@.dom()),
            -COORDINATE_LIMIT <= bounds.min_row <= bounds.max_row <= COORDINATE_LIMIT + 1,
            -COORDINATE_LIMIT <= bounds.min_column <= bounds.max_column <= COORDINATE_LIMIT + 1,
    {
        let cells = self.get_positions();
        proof {
            assert forall|i: int| 0 <= i < cells.len() implies (#[trigger] cells[i]).row
                < i32::MAX && cells[i].column < i32::MAX by {
                assert(cells@.to_set().contains(cells[i]));
                assert(self@.contains_key(cells[i]));
            }
        }
        let bounds = Rectangle::bounding_rectangle(&cells);
        proof {
            let dom = self@.dom();
            if !dom.is_empty() {
                let a = choose|p: Position| #[trigger] dom.contains(p) && p.row == bounds.min_row;
                let b = choose|p: Position| #[trigger]
                    dom.contains(p) && p.row == bounds.max_row - 1;
                let c = choose|p: Position| #[trigger]
                    dom.contains(p) && p.column == bounds.min_column;
                let d = choose|p: Position| #[trigger]
                    dom.contains(p) && p.column == bounds.max_column - 1;
                assert(self@.contains_key(a) && self@.contains_key(b) && self@.contains_key(c)
                    && self@.contains_key(d));
                assert(bounds.contains(a) && bounds.contains(b) && bounds.contains(c)
                    && bounds.contains(d));
            }
        }
        bounds
    }

    /// Draws the tree with box-drawing glyphs: a wall stands between a cell of
    /// the tree and a neighbour that is none, and between two cells of which
    /// neither is the parent of the other. Lines carry no spaces at their end,
    /// and the drawing no blank lines at its end.
    pub fn to_string(&self) -> (s: String)
        requires
            self.wf(),
        ensures
            s@ == trim_blank(drawing(tree_rows(self@, bounding_of(self@.dom())), true)),
    {
        let bounds = self.get_bounding_rectangle();
        proof {
            lemma_bounding(self@.dom(), bounds);
        }
        let mut rows: Vec<Vec<Bars>> = Vec::new();
        let mut row: i32 = bounds.min_row;
        let ghost target = tree_rows(self@, bounds);
        while row <= bounds.max_row
            invariant
                self.wf(),
                -COORDINATE_LIMIT <= bounds.min_row <= row <= bounds.max_row + 1,
                bounds.max_row <= COORDINATE_LIMIT + 1,
                -COORDINATE_LIMIT <= bounds.min_column <= bounds.max_column <= COORDINATE_LIMIT + 1,
                target == tree_rows(self@, bounds),
                rows@.len() == row - bounds.min_row,
                forall|i: int| 0 <= i < rows@.len() ==> (#[trigger] rows@[i])@ == target[i],
            decreases bounds.max_row + 1 - row,
        {
            let mut line: Vec<Bars> = Vec::new();
            let mut column: i32 = bounds.min_column;
            while column <= bounds.max_column
                invariant
                    self.wf(),
                    -COORDINATE_LIMIT <= bounds.min_row <= row <= bounds.max_row <= COORDINATE_LIMIT + 1,
                    -COORDINATE_LIMIT <= bounds.min_column <= column <= bounds.max_column + 1,
                    bounds.max_column <= COORDINATE_LIMIT + 1,
                    target == tree_rows(self@, bounds),
                    line@.len() == column - bounds.min_column,
                    forall|i: int|
                        0 <= i < line@.len() ==> #[trigger] line@[i] == target[row
                            - bounds.min_row][i],
                decreases bounds.max_column + 1 - column,
            {
                let bottom_right = Position { row, column };
                let bottom_left = bottom_right.left();
                let top_left = bottom_left.up();
                let top_right = bottom_right.up();
                line.push(
                    Bars {
                        top: self.is_parted(&top_left, &top_right),
                        right: self.is_parted(&top_right, &bottom_right),
                        bottom: self.is_parted(&bottom_left, &bottom_right),
                        left: self.is_parted(&top_left, &bottom_left),
                    },
                );
                column += 1;
            }
            assert(line@ =~= target[row - bounds.min_row]);
            rows.push(line);
            row += 1;
        }
        let mut text = draw(&rows, true);
        assert(rows@.map_values(|row: Vec<Bars>| row@) =~= target);
        trim_end_blank(&mut text);
        string_of(&text)
    }
}

} // verus!

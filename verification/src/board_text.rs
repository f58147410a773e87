//! Boards as text: the drawing of a board with box-drawing glyphs, and how it is
//! read back.
use vstd::prelude::*;

use crate::board::Board;
use crate::border::Border;

use crate::position::{Position, COORDINATE_LIMIT};
use crate::text::{
    bars_of,
    chars_of,
    draw,
    drawing,
    drawn_lines,
    glyph_bars,
    glyph_of,
    lemma_glyph,
    lemma_lines_of_joined,
    lemma_row_text,
    lemma_trim_spaces,
    lines_of,
    plain_line,
    row_text,
    split_lines,
    string_of,
    trim_spaces,
    Bars,
};

verus! {

/// The arms of the glyph at the corner whose lower right cell is `corner`: one
/// for each of the four walls that meet there and stand.
pub open spec fn board_bars(walls: Set<Border>, corner: Position) -> Bars {
    let bottom_right = corner;
    let bottom_left = corner.shift(0, -1);
    let top_left = corner.shift(-1, -1);
    let top_right = corner.shift(-1, 0);
    Bars {
        top: walls.contains(Border::of(top_left, top_right)),
        right: walls.contains(Border::of(top_right, bottom_right)),
        bottom: walls.contains(Border::of(bottom_left, bottom_right)),
        left: walls.contains(Border::of(top_left, bottom_left)),
    }
}

/// The glyphs of the corners of a grid of `rows` rows and `columns` columns, row
/// by row.
pub open spec fn board_rows(walls: Set<Border>, rows: int, columns: int) -> Seq<Seq<Bars>> {
    Seq::new(
        (rows + 1) as nat,
        |r: int|
            Seq::new(
                (columns + 1) as nat,
                |c: int| board_bars(walls, Position { row: r as i32, column: c as i32 }),
            ),
    )
}

/// The glyph at the corner in line `r`, two characters for each corner before
/// it, shows the wall `b`: with its right arm the wall above the cell to its
/// lower right, with its lower arm the wall left of that cell.
pub open spec fn shows(lines: Seq<Seq<char>>, r: int, c: int, b: Border) -> bool {
    let bars = bars_of(lines[r][2 * c]);
    let corner = Position { row: r as i32, column: c as i32 };
    (bars.right && b == Border::of(corner.shift(-1, 0), corner)) || (bars.bottom && b
        == Border::of(corner.shift(0, -1), corner))
}

/// The walls that the lines of a drawn board show.
pub open spec fn read_walls(lines: Seq<Seq<char>>) -> Set<Border> {
    Set::new(
        |b: Border|
            exists|r: int, c: int|
                0 <= r < lines.len() && 0 <= c && 2 * c < lines[r].len() && #[trigger] shows(
                    lines,
                    r,
                    c,
                    b,
                ),
    )
}

impl Board {
    /// The wall `b` can be drawn: it is the right arm or the lower arm of one of
    /// the corners of the grid, and does not reach beyond the frame.
    pub open spec fn drawable(&self, b: Border) -> bool {
        let p1 = b.first();
        let p2 = b.second();
        ||| (p1.column == p2.column && p2.row == p1.row + 1 && 0 <= p2.row <= self.rows() && 0
            <= p2.column < self.columns())
        ||| (p1.row == p2.row && p2.column == p1.column + 1 && 0 <= p2.row < self.rows() && 0
            <= p2.column <= self.columns())
    }

    /// The board is tidy: the frame stands, and every wall can be drawn.
    pub open spec fn tidy(&self) -> bool {
        &&& forall|b: Border| #[trigger] self@.contains(b) ==> self.drawable(b)
        &&& forall|b: Border| b.well_formed() && #[trigger] self.on_frame(b) ==> self@.contains(b)
    }

    /// The drawing of the board.
    pub open spec fn drawn(&self) -> Seq<char> {
        drawing(board_rows(self@, self.rows(), self.columns()), true)
    }

    /// Draws the board with box-drawing glyphs: one line for each row of corners
    /// of the grid, and in it two characters for each corner, the glyph with an
    /// arm for each wall that meets there and stands, and a bar or a space. Lines
    /// carry no spaces at their end.
    pub fn to_string(&self) -> (s: String)
        requires
            self.wf(),
        ensures
            s@ == self.drawn(),
    {
        let height = self.get_height();
        let width = self.get_width();
        let mut rows: Vec<Vec<Bars>> = Vec::new();
        let ghost target = board_rows(self@, self.rows(), self.columns());
        let mut row: usize = 0;
        while row <= height
            invariant
                self.wf(),
                height == self.rows(),
                width == self.columns(),
                row <= height + 1,
                target == board_rows(self@, self.rows(), self.columns()),
                rows@.len() == row,
                forall|i: int| 0 <= i < rows@.len() ==> (#[trigger] rows@[i])@ == target[i],
            decreases height + 1 - row,
        {
            let mut line: Vec<Bars> = Vec::new();
            let mut column: usize = 0;
            while column <= width
                invariant
                    self.wf(),
                    height == self.rows(),
                    width == self.columns(),
                    row <= height,
                    column <= width + 1,
                    target == board_rows(self@, self.rows(), self.columns()),
                    line@.len() == column,
                    forall|i: int|
                        0 <= i < line@.len() ==> #[trigger] line@[i] == target[row as int][i],
                decreases width + 1 - column,
            {
                let bottom_right = Position::at(row, column);
                let top_left = bottom_right.left().up();
                line.push(
                    Bars {
                        top: self.is_active(&Border::right(top_left)),
                        right: self.is_active(&Border::up(bottom_right)),
                        bottom: self.is_active(&Border::left(bottom_right)),
                        left: self.is_active(&Border::down(top_left)),
                    },
                );
                column += 1;
            }
            assert(line@ =~= target[row as int]);
            rows.push(line);
            row += 1;
        }
        let text = draw(&rows, true);
        assert(rows@.map_values(|row: Vec<Bars>| row@) =~= target);
        string_of(&text)
    }

    /// Reads a drawn board. The board has one row less than the text has lines,
    /// and half as many columns as the first line has characters after the first
    /// one. In every line, every second character is the glyph of a corner; its
    /// right arm and its lower arm stand for a wall each.
    pub fn from_string(string: &str) -> (board: Board)
        requires
            lines_of(string@).len() <= COORDINATE_LIMIT + 1,
            forall|i: int|
                0 <= i < lines_of(string@).len() ==> (#[trigger] lines_of(string@)[i]).len() <= 2
                    * COORDINATE_LIMIT + 2,
            lines_of(string@).len() >= 1,
            lines_of(string@)[0].len() >= 1,
        ensures
            board.wf(),
            board.rows() == lines_of(string@).len() - 1,
            board.columns() == (lines_of(string@)[0].len() - 1) / 2,
            board@ == read_walls(lines_of(string@)),
    {
        let text = chars_of(string);
        let lines = split_lines(&text);
        let ghost all = lines_of(string@);
        let width: usize = (lines[0].len() - 1) / 2;
        let height: usize = lines.len() - 1;
        let mut walls: Vec<Border> = Vec::new();
        let mut row: usize = 0;
        while row < lines.len()
            invariant
                row <= lines.len(),
                lines@.len() == all.len(),
                lines@.len() <= COORDINATE_LIMIT + 1,
                forall|i: int| 0 <= i < lines@.len() ==> (#[trigger] lines@[i])@ == all[i],
                forall|i: int|
                    0 <= i < lines@.len() ==> (#[trigger] lines@[i])@.len() <= 2 * COORDINATE_LIMIT
                        + 2,
                forall|i: int|
                    0 <= i < walls@.len() ==> (#[trigger] walls@[i]).first().in_range()
                        && walls@[i].second().in_range(),
                forall|b: Border|
                    #![trigger walls@.contains(b)]
                    walls@.contains(b) <==> exists|r: int, c: int|
                        0 <= r < row && 0 <= c && 2 * c < all[r].len() && #[trigger] shows(
                            all,
                            r,
                            c,
                            b,
                        ),
            decreases lines.len() - row,
        {
            let line = &lines[row];
            let mut column: usize = 0;
            while 2 * column < line.len()
                invariant
                    row < lines.len(),
                    lines@.len() == all.len(),
                    lines@.len() <= COORDINATE_LIMIT + 1,
                    line@ == all[row as int],
                    line@.len() <= 2 * COORDINATE_LIMIT + 2,
                    2 * column <= line@.len() + 1,
                    forall|i: int|
                        0 <= i < walls@.len() ==> (#[trigger] walls@[i]).first().in_range()
                            && walls@[i].second().in_range(),
                    forall|b: Border|
                        #![trigger walls@.contains(b)]
                        walls@.contains(b) <==> exists|r: int, c: int|
                            (0 <= r < row || (r == row && c < column)) && 0 <= c && 2 * c
                                < all[r].len() && #[trigger] shows(all, r, c, b),
                decreases line.len() + 1 - 2 * column,
            {
                let bars = glyph_bars(line[2 * column]);
                let corner = Position::at(row, column);
                let ghost before = walls@;
                let above = Border::up(corner);
                let beside = Border::left(corner);
                if bars.right {
                    walls.push(above);
                }
                let ghost middle = walls@;
                if bars.bottom {
                    walls.push(beside);
                }
                proof {
                    crate::reach::lemma_push_contains(before, above);
                    crate::reach::lemma_push_contains(middle, beside);
                    assert forall|b: Border|
                        #![trigger walls@.contains(b)]
                        walls@.contains(b) <==> exists|r: int, c: int|
                            (0 <= r < row || (r == row && c < column + 1)) && 0 <= c && 2 * c
                                < all[r].len() && #[trigger] shows(all, r, c, b) by {
                        if before.contains(b) {
                            let (r, c) = choose|r: int, c: int|
                                (0 <= r < row || (r == row && c < column)) && 0 <= c && 2 * c
                                    < all[r].len() && #[trigger] shows(all, r, c, b);
                            assert(shows(all, r, c, b));
                        }
                        if walls@.contains(b) && !before.contains(b) {
                            assert(shows(all, row as int, column as int, b));
                        }
                        if exists|r: int, c: int|
                            (0 <= r < row || (r == row && c < column + 1)) && 0 <= c && 2 * c
                                < all[r].len() && #[trigger] shows(all, r, c, b) {
                            let (r, c) = choose|r: int, c: int|
                                (0 <= r < row || (r == row && c < column + 1)) && 0 <= c && 2 * c
                                    < all[r].len() && #[trigger] shows(all, r, c, b);
                            if r == row && c == column {
                            } else {
                                assert(shows(all, r, c, b));
                                assert(before.contains(b));
                            }
                        }
                    }
                }
                column += 1;
            }
            proof {
                assert forall|b: Border|
                    #![trigger walls@.contains(b)]
                    walls@.contains(b) <==> exists|r: int, c: int|
                        0 <= r < row + 1 && 0 <= c && 2 * c < all[r].len() && #[trigger] shows(
                            all,
                            r,
                            c,
                            b,
                        ) by {
                    if walls@.contains(b) {
                        let (r, c) = choose|r: int, c: int|
                            (0 <= r < row || (r == row && c < column)) && 0 <= c && 2 * c
                                < all[r].len() && #[trigger] shows(all, r, c, b);
                        assert(shows(all, r, c, b));
                    }
                    if exists|r: int, c: int|
                        0 <= r < row + 1 && 0 <= c && 2 * c < all[r].len() && #[trigger] shows(
                            all,
                            r,
                            c,
                            b,
                        ) {
                        let (r, c) = choose|r: int, c: int|
                            0 <= r < row + 1 && 0 <= c && 2 * c < all[r].len() && #[trigger] shows(
                                all,
                                r,
                                c,
                                b,
                            );
                        assert(shows(all, r, c, b));
                    }
                }
            }
            row += 1;
        }
        let board = Board::with_walls(width, height, &walls);
        proof {
            assert(board@ =~= read_walls(all)) by {
                assert forall|b: Border| board@.contains(b) <==> read_walls(all).contains(b) by {
                    assert(walls@.to_set().contains(b) <==> walls@.contains(b));
                    if walls@.contains(b) {
                        let (r, c) = choose|r: int, c: int|
                            0 <= r < row && 0 <= c && 2 * c < all[r].len() && #[trigger] shows(
                                all,
                                r,
                                c,
                                b,
                            );
                        assert(shows(all, r, c, b));
                    }
                    if read_walls(all).contains(b) {
                        let (r, c) = choose|r: int, c: int|
                            0 <= r < all.len() && 0 <= c && 2 * c < all[r].len()
                                && #[trigger] shows(all, r, c, b);
                        assert(shows(all, r, c, b));
                    }
                }
            }
        }
        board
    }

    /// Of a tidy board with cells, the drawing reads back as the board: it has
    /// one line more than the board has rows, its first line has two characters
    /// for each column and one more, no line is longer than `from_string`
    /// takes, and the walls that it shows are those of the board.
    pub proof fn lemma_text_round_trip(&self)
        requires
            self.wf(),
            self.rows() >= 1,
            self.columns() >= 1,
            self.tidy(),
        ensures
            lines_of(self.drawn()).len() == self.rows() + 1,
            lines_of(self.drawn())[0].len() == 2 * self.columns() + 1,
            (lines_of(self.drawn())[0].len() - 1) / 2 == self.columns(),
            forall|i: int|
                0 <= i < lines_of(self.drawn()).len() ==> (#[trigger] lines_of(self.drawn())[i]).len()
                    <= 2 * self.columns() + 2,
            read_walls(lines_of(self.drawn())) == self@,
    {
        let walls = self@;
        let height = self.rows();
        let width = self.columns();
        let corners = board_rows(walls, height, width);
        let lines = drawn_lines(corners, true);
        assert forall|r: int| 0 <= r < lines.len() implies plain_line(#[trigger] lines[r]) by {
            self.lemma_drawn_line(r);
        }
        self.lemma_drawn_line(height);
        self.lemma_drawn_line(0);
        // the last line begins with a piece of the frame
        let low = Position { row: height as i32, column: 0 };
        let left_frame = Border::of(low.shift(-1, -1), low.shift(-1, 0));
        assert(walls.contains(left_frame)) by {
            Border::lemma_of(low.shift(-1, -1), low.shift(-1, 0));
            left_frame.lemma_well_formed();
            assert(self.on_frame(left_frame));
        }
        assert(board_bars(walls, low).top);
        lemma_glyph(board_bars(walls, low));
        assert(corners[height][0] == board_bars(walls, low));
        assert(row_text(corners[height])[0] != ' ');
        assert(lines[height].len() > 0);
        lemma_lines_of_joined(lines);
        assert(lines_of(self.drawn()) == lines);
        assert forall|i: int| 0 <= i < lines.len() implies (#[trigger] lines[i]).len() <= 2 * width
            + 2 by {
            self.lemma_drawn_line(i);
        }
        // the first line ends with the corner of the frame
        let high = Position { row: 0, column: width as i32 };
        let top_frame = Border::of(high.shift(-1, -1), high.shift(0, -1));
        assert(walls.contains(top_frame)) by {
            Border::lemma_of(high.shift(-1, -1), high.shift(0, -1));
            top_frame.lemma_well_formed();
            assert(self.on_frame(top_frame));
        }
        let beyond = Border::of(high.shift(-1, 0), high);
        assert(!walls.contains(beyond)) by {
            Border::lemma_of(high.shift(-1, 0), high);
            assert(!self.drawable(beyond));
        }
        assert(corners[0][width] == board_bars(walls, high));
        assert(board_bars(walls, high).left);
        assert(!board_bars(walls, high).right);
        lemma_glyph(board_bars(walls, high));
        assert(row_text(corners[0])[2 * width] != ' ');
        assert(row_text(corners[0])[2 * width + 1] == ' ');
        assert(lines[0].len() == 2 * width + 1);
        assert(read_walls(lines) =~= walls) by {
            assert forall|b: Border| read_walls(lines).contains(b) <==> walls.contains(b) by {
                if read_walls(lines).contains(b) {
                    let (r, c) = choose|r: int, c: int|
                        0 <= r < lines.len() && 0 <= c && 2 * c < lines[r].len()
                            && #[trigger] shows(lines, r, c, b);
                    self.lemma_drawn_line(r);
                    let corner = Position { row: r as i32, column: c as i32 };
                    assert(corners[r][c] == board_bars(walls, corner));
                    lemma_glyph(board_bars(walls, corner));
                    assert(lines[r][2 * c] == glyph_of(board_bars(walls, corner)));
                }
                if walls.contains(b) {
                    assert(self.drawable(b));
                    let corner = b.second();
                    let r = corner.row as int;
                    let c = corner.column as int;
                    self.lemma_drawn_line(r);
                    assert(corners[r][c] == board_bars(walls, corner));
                    lemma_glyph(board_bars(walls, corner));
                    if b.first().column == b.second().column {
                        Border::lemma_of(corner.shift(-1, 0), corner);
                        Border::lemma_same(b, Border::of(corner.shift(-1, 0), corner));
                        assert(board_bars(walls, corner).right);
                    } else {
                        Border::lemma_of(corner.shift(0, -1), corner);
                        Border::lemma_same(b, Border::of(corner.shift(0, -1), corner));
                        assert(board_bars(walls, corner).bottom);
                    }
                    assert(row_text(corners[r])[2 * c] != ' ');
                    assert(2 * c < lines[r].len());
                    assert(lines[r][2 * c] == glyph_of(board_bars(walls, corner)));
                    assert(shows(lines, r, c, b));
                }
            }
        }
    }

    /// The line that draws the row `r` of corners is the beginning of the
    /// characters of that row, up to the last one that is no space; it holds no
    /// line feed and no carriage return.
    proof fn lemma_drawn_line(&self, r: int)
        requires
            self.wf(),
            0 <= r <= self.rows(),
        ensures
            ({
                let corners = board_rows(self@, self.rows(), self.columns());
                let full = row_text(corners[r]);
                let line = drawn_lines(corners, true)[r];
                &&& full.len() == 2 * self.columns() + 2
                &&& line.len() <= full.len()
                &&& forall|j: int| 0 <= j < line.len() ==> line[j] == full[j]
                &&& forall|j: int| line.len() <= j < full.len() ==> full[j] == ' '
                &&& line.len() > 0 ==> line.last() != ' '
                &&& plain_line(line)
                &&& forall|c: int|
                    0 <= c <= self.columns() ==> full[2 * c] == glyph_of(#[trigger] corners[r][c])
                        && full[2 * c + 1] == (if corners[r][c].right {
                        '─'
                    } else {
                        ' '
                    })
            }),
    {
        let corners = board_rows(self@, self.rows(), self.columns());
        let full = row_text(corners[r]);
        let line = drawn_lines(corners, true)[r];
        lemma_row_text(corners[r]);
        lemma_trim_spaces(full);
        assert(line == trim_spaces(full));
        assert forall|j: int| 0 <= j < full.len() implies full[j] != '\n' && full[j] != '\r' by {
            let c = j / 2;
            lemma_glyph(corners[r][c]);
            if j == 2 * c {
                assert(full[2 * c] == glyph_of(corners[r][c]));
            } else {
                assert(j == 2 * c + 1);
            }
        }
        assert forall|i: int| 0 <= i < line.len() implies line[i] != '\n' by {
            assert(line[i] == full[i]);
        }
        if line.len() > 0 {
            assert(line.last() == full[line.len() - 1]);
        }
    }
}

} // verus!

//! Text: lines, and drawings made of box-drawing glyphs.
use vstd::prelude::*;

use crate::position::Position;

verus! {

/// What `String::push` does: it appends the one character `c`.
pub assume_specification[ String::push ](s: &mut String, c: char)
    ensures
        final(s)@ == old(s)@.push(c),
;

/// The characters of `s`.
pub fn chars_of(s: &str) -> (chars: Vec<char>)
    ensures
        chars@ == s@,
{
    let n: usize = s.unicode_len();
    let mut chars: Vec<char> = Vec::with_capacity(n);
    let mut i: usize = 0;
    while i < n
        invariant
            n == s@.len(),
            i <= n,
            chars@ == s@.subrange(0, i as int),
        decreases n - i,
    {
        chars.push(s.get_char(i));
        i += 1;
        assert(chars@ =~= s@.subrange(0, i as int));
    }
    assert(s@.subrange(0, n as int) =~= s@);
    chars
}

/// The string of the given characters.
pub fn string_of(chars: &Vec<char>) -> (s: String)
    ensures
        s@ == chars@,
{
    let mut s = String::new();
    let mut i: usize = 0;
    while i < chars.len()
        invariant
            i <= chars.len(),
            s@ == chars@.subrange(0, i as int),
        decreases chars.len() - i,
    {
        s.push(chars[i]);
        i += 1;
        assert(s@ =~= chars@.subrange(0, i as int));
    }
    assert(chars@.subrange(0, chars.len() as int) =~= chars@);
    s
}

/// The index of the first line feed at or after `start`, or the length of the
/// text where there is none.
pub open spec fn line_end(text: Seq<char>, start: int) -> int
    decreases text.len() - start,
{
    if start >= text.len() || text[start] == '\n' {
        start
    } else {
        line_end(text, start + 1)
    }
}

/// A line without the carriage return before the line feed that ended it.
pub open spec fn strip_return(line: Seq<char>, terminated: bool) -> Seq<char> {
    if terminated && line.len() > 0 && line.last() == '\r' {
        line.drop_last()
    } else {
        line
    }
}

/// The lines of the text from index `start` on.
pub open spec fn lines_from(text: Seq<char>, start: int) -> Seq<Seq<char>>
    decreases text.len() - start,
{
    if start >= text.len() || start < 0 {
        Seq::empty()
    } else {
        let end = line_end(text, start);
        proof {
            lemma_line_end(text, start);
        }
        if end < text.len() {
            seq![strip_return(text.subrange(start, end), true)] + lines_from(text, end + 1)
        } else {
            seq![text.subrange(start, end)]
        }
    }
}

/// The lines of a text. A line ends at a line feed or at the end of the text; the
/// line feed, and a carriage return directly before it, are not part of the line.
/// After a final line feed no empty line follows.
pub open spec fn lines_of(text: Seq<char>) -> Seq<Seq<char>> {
    lines_from(text, 0)
}

/// Where a line ends.
pub proof fn lemma_line_end(text: Seq<char>, start: int)
    requires
        0 <= start <= text.len(),
    ensures
        start <= line_end(text, start) <= text.len(),
        line_end(text, start) < text.len() ==> text[line_end(text, start)] == '\n',
        forall|i: int| start <= i < line_end(text, start) ==> text[i] != '\n',
    decreases text.len() - start,
{
    if start < text.len() && text[start] != '\n' {
        lemma_line_end(text, start + 1);
    }
}

/// Splits a text into its lines.
pub fn split_lines(text: &Vec<char>) -> (lines: Vec<Vec<char>>)
    ensures
        lines@.len() == lines_of(text@).len(),
        forall|i: int| 0 <= i < lines@.len() ==> (#[trigger] lines@[i])@ == lines_of(text@)[i],
        lines@.len() <= text@.len(),
        forall|i: int| 0 <= i < lines@.len() ==> (#[trigger] lines@[i])@.len() <= text@.len(),
{
    let mut lines: Vec<Vec<char>> = Vec::new();
    let mut start: usize = 0;
    let ghost mut done: Seq<Seq<char>> = Seq::empty();
    while start < text.len()
        invariant
            start <= text.len(),
            lines@.len() <= start,
            forall|i: int| 0 <= i < lines@.len() ==> (#[trigger] lines@[i])@.len() <= text@.len(),
            done.len() == lines@.len(),
            forall|i: int| 0 <= i < lines@.len() ==> (#[trigger] lines@[i])@ == done[i],
            lines_of(text@) == done + lines_from(text@, start as int),
        decreases text.len() - start,
    {
        let mut end: usize = start;
        while end < text.len() && text[end] != '\n'
            invariant
                start <= end <= text.len(),
                line_end(text@, start as int) == line_end(text@, end as int),
            decreases text.len() - end,
        {
            end += 1;
        }
        let terminated: bool = end < text.len();
        let mut stop: usize = end;
        if terminated && stop > start && text[stop - 1] == '\r' {
            stop = stop - 1;
        }
        let mut line: Vec<char> = Vec::with_capacity(stop - start);
        let mut i: usize = start;
        while i < stop
            invariant
                start <= i <= stop <= text.len(),
                line@ == text@.subrange(start as int, i as int),
            decreases stop - i,
        {
            line.push(text[i]);
            i += 1;
            assert(line@ =~= text@.subrange(start as int, i as int));
        }
        proof {
            let whole = text@.subrange(start as int, end as int);
            assert(line@ =~= strip_return(whole, terminated));
            let rest = if terminated {
                lines_from(text@, end + 1)
            } else {
                Seq::<Seq<char>>::empty()
            };
            assert(lines_from(text@, start as int) =~= seq![line@] + rest);
            assert(done + lines_from(text@, start as int) =~= done.push(line@) + rest);
            done = done.push(line@);
        }
        lines.push(line);
        if terminated {
            start = end + 1;
        } else {
            start = end;
        }
    }
    proof {
        assert(lines_from(text@, start as int) =~= Seq::<Seq<char>>::empty());
        assert(lines_of(text@) =~= done);
    }
    lines
}

/// The cell `p` is marked: the line at its row holds, at its column, a character
/// that is no space.
pub open spec fn marked(lines: Seq<Seq<char>>, p: Position) -> bool {
    &&& 0 <= p.row < lines.len()
    &&& 0 <= p.column < lines[p.row as int].len()
    &&& lines[p.row as int][p.column as int] != ' '
}

/// The text without the spaces and line feeds at its end.
pub open spec fn trim_blank(text: Seq<char>) -> Seq<char>
    decreases text.len(),
{
    if text.len() > 0 && (text.last() == ' ' || text.last() == '\n') {
        trim_blank(text.drop_last())
    } else {
        text
    }
}

/// Takes the spaces and line feeds off the end of a text.
pub fn trim_end_blank(text: &mut Vec<char>)
    ensures
        final(text)@ == trim_blank(old(text)@),
{
    while text.len() > 0 && (text[text.len() - 1] == ' ' || text[text.len() - 1] == '\n')
        invariant
            trim_blank(text@) == trim_blank(old(text)@),
        decreases text.len(),
    {
        let ghost before = text@;
        text.pop();
        assert(text@ =~= before.drop_last());
    }
}

/// The line without the spaces at its end.
pub open spec fn trim_spaces(line: Seq<char>) -> Seq<char>
    decreases line.len(),
{
    if line.len() > 0 && line.last() == ' ' {
        trim_spaces(line.drop_last())
    } else {
        line
    }
}

/// Takes the spaces off the end of a line.
pub fn trim_end(line: &mut Vec<char>)
    ensures
        final(line)@ == trim_spaces(old(line)@),
{
    while line.len() > 0 && line[line.len() - 1] == ' '
        invariant
            trim_spaces(line@) == trim_spaces(old(line)@),
        decreases line.len(),
    {
        let ghost before = line@;
        line.pop();
        assert(line@ =~= before.drop_last());
    }
}

/// The lines one after the other, with a line feed between each two.
pub open spec fn joined(lines: Seq<Seq<char>>) -> Seq<char>
    decreases lines.len(),
{
    if lines.len() == 0 {
        Seq::empty()
    } else if lines.len() == 1 {
        lines[0]
    } else {
        joined(lines.drop_last()) + seq!['\n'] + lines.last()
    }
}

/// The four arms that a glyph can have at a corner of the grid.
#[derive(Clone, Copy, Debug, PartialEq, Eq, Structural)]
pub struct Bars {
    pub top: bool,
    pub right: bool,
    pub bottom: bool,
    pub left: bool,
}

/// The box-drawing glyph with the given arms.
pub open spec fn glyph_of(bars: Bars) -> char {
    if bars.top {
        if bars.right {
            if bars.bottom {
                if bars.left {
                    '┼'
                } else {
                    '├'
                }
            } else {
                if bars.left {
                    '┴'
                } else {
                    '└'
                }
            }
        } else {
            if bars.bottom {
                if bars.left {
                    '┤'
                } else {
                    '│'
                }
            } else {
                if bars.left {
                    '┘'
                } else {
                    '╵'
                }
            }
        }
    } else {
        if bars.right {
            if bars.bottom {
                if bars.left {
                    '┬'
                } else {
                    '┌'
                }
            } else {
                if bars.left {
                    '─'
                } else {
                    '╶'
                }
            }
        } else {
            if bars.bottom {
                if bars.left {
                    '┐'
                } else {
                    '╷'
                }
            } else {
                if bars.left {
                    '╴'
                } else {
                    ' '
                }
            }
        }
    }
}

/// The arms of a box-drawing glyph; any other character has none.
pub open spec fn bars_of(glyph: char) -> Bars {
    if glyph == '┼' {
        Bars { top: true, right: true, bottom: true, left: true }
    } else if glyph == '├' {
        Bars { top: true, right: true, bottom: true, left: false }
    } else if glyph == '┴' {
        Bars { top: true, right: true, bottom: false, left: true }
    } else if glyph == '└' {
        Bars { top: true, right: true, bottom: false, left: false }
    } else if glyph == '┤' {
        Bars { top: true, right: false, bottom: true, left: true }
    } else if glyph == '│' {
        Bars { top: true, right: false, bottom: true, left: false }
    } else if glyph == '┘' {
        Bars { top: true, right: false, bottom: false, left: true }
    } else if glyph == '╵' {
        Bars { top: true, right: false, bottom: false, left: false }
    } else if glyph == '┬' {
        Bars { top: false, right: true, bottom: true, left: true }
    } else if glyph == '┌' {
        Bars { top: false, right: true, bottom: true, left: false }
    } else if glyph == '─' {
        Bars { top: false, right: true, bottom: false, left: true }
    } else if glyph == '╶' {
        Bars { top: false, right: true, bottom: false, left: false }
    } else if glyph == '┐' {
        Bars { top: false, right: false, bottom: true, left: true }
    } else if glyph == '╷' {
        Bars { top: false, right: false, bottom: true, left: false }
    } else if glyph == '╴' {
        Bars { top: false, right: false, bottom: false, left: true }
    } else {
        Bars { top: false, right: false, bottom: false, left: false }
    }
}

/// A glyph says which arms it has, and only the blank has none.
pub proof fn lemma_glyph(bars: Bars)
    ensures
        bars_of(glyph_of(bars)) == bars,
        glyph_of(bars) != '\n',
        glyph_of(bars) != '\r',
        glyph_of(bars) == ' ' <==> bars == (Bars {
            top: false,
            right: false,
            bottom: false,
            left: false,
        }),
{
}

/// The box-drawing glyph with the given arms.
pub fn glyph(bars: Bars) -> (c: char)
    ensures
        c == glyph_of(bars),
{
    if bars.top {
        if bars.right {
            if bars.bottom {
                if bars.left {
                    '┼'
                } else {
                    '├'
                }
            } else {
                if bars.left {
                    '┴'
                } else {
                    '└'
                }
            }
        } else {
            if bars.bottom {
                if bars.left {
                    '┤'
                } else {
                    '│'
                }
            } else {
                if bars.left {
                    '┘'
                } else {
                    '╵'
                }
            }
        }
    } else {
        if bars.right {
            if bars.bottom {
                if bars.left {
                    '┬'
                } else {
                    '┌'
                }
            } else {
                if bars.left {
                    '─'
                } else {
                    '╶'
                }
            }
        } else {
            if bars.bottom {
                if bars.left {
                    '┐'
                } else {
                    '╷'
                }
            } else {
                if bars.left {
                    '╴'
                } else {
                    ' '
                }
            }
        }
    }
}

/// The arms of a box-drawing glyph; any other character has none.
pub fn glyph_bars(glyph: char) -> (bars: Bars)
    ensures
        bars == bars_of(glyph),
{
    if glyph == '┼' {
        Bars { top: true, right: true, bottom: true, left: true }
    } else if glyph == '├' {
        Bars { top: true, right: true, bottom: true, left: false }
    } else if glyph == '┴' {
        Bars { top: true, right: true, bottom: false, left: true }
    } else if glyph == '└' {
        Bars { top: true, right: true, bottom: false, left: false }
    } else if glyph == '┤' {
        Bars { top: true, right: false, bottom: true, left: true }
    } else if glyph == '│' {
        Bars { top: true, right: false, bottom: true, left: false }
    } else if glyph == '┘' {
        Bars { top: true, right: false, bottom: false, left: true }
    } else if glyph == '╵' {
        Bars { top: true, right: false, bottom: false, left: false }
    } else if glyph == '┬' {
        Bars { top: false, right: true, bottom: true, left: true }
    } else if glyph == '┌' {
        Bars { top: false, right: true, bottom: true, left: false }
    } else if glyph == '─' {
        Bars { top: false, right: true, bottom: false, left: true }
    } else if glyph == '╶' {
        Bars { top: false, right: true, bottom: false, left: false }
    } else if glyph == '┐' {
        Bars { top: false, right: false, bottom: true, left: true }
    } else if glyph == '╷' {
        Bars { top: false, right: false, bottom: true, left: false }
    } else if glyph == '╴' {
        Bars { top: false, right: false, bottom: false, left: true }
    } else {
        Bars { top: false, right: false, bottom: false, left: false }
    }
}

/// A row of corners is drawn with two characters for each corner: its glyph, and
/// a bar or a space.
pub proof fn lemma_row_text(row: Seq<Bars>)
    ensures
        row_text(row).len() == 2 * row.len(),
        forall|c: int|
            0 <= c < row.len() ==> row_text(row)[2 * c] == glyph_of(#[trigger] row[c]) && row_text(
                row,
            )[2 * c + 1] == (if row[c].right {
                '─'
            } else {
                ' '
            }),
    decreases row.len(),
{
    if row.len() > 0 {
        let shorter = row.drop_last();
        lemma_row_text(shorter);
        assert forall|c: int| 0 <= c < row.len() implies row_text(row)[2 * c] == glyph_of(
            #[trigger] row[c],
        ) && row_text(row)[2 * c + 1] == (if row[c].right {
            '─'
        } else {
            ' '
        }) by {
            if c < shorter.len() {
                assert(shorter[c] == row[c]);
            }
        }
    }
}

/// What trimming leaves is the beginning of the line, up to its last character
/// that is no space.
pub proof fn lemma_trim_spaces(line: Seq<char>)
    ensures
        trim_spaces(line).len() <= line.len(),
        forall|j: int| 0 <= j < trim_spaces(line).len() ==> trim_spaces(line)[j] == line[j],
        forall|j: int| trim_spaces(line).len() <= j < line.len() ==> line[j] == ' ',
        trim_spaces(line).len() > 0 ==> trim_spaces(line).last() != ' ',
    decreases line.len(),
{
    if line.len() > 0 && line.last() == ' ' {
        let shorter = line.drop_last();
        lemma_trim_spaces(shorter);
        let trimmed = trim_spaces(line);
        assert(trimmed == trim_spaces(shorter));
        assert forall|j: int| 0 <= j < trimmed.len() implies trimmed[j] == line[j] by {
            assert(trimmed[j] == shorter[j]);
        }
        assert forall|j: int| trimmed.len() <= j < line.len() implies line[j] == ' ' by {
            if j < shorter.len() {
                assert(shorter[j] == ' ');
            }
        }
    }
}

/// A text without a line feed from `start` on is one line from there.
pub proof fn lemma_line_end_none(text: Seq<char>, start: int)
    requires
        0 <= start <= text.len(),
        forall|i: int| start <= i < text.len() ==> text[i] != '\n',
    ensures
        line_end(text, start) == text.len(),
    decreases text.len() - start,
{
    if start < text.len() {
        lemma_line_end_none(text, start + 1);
    }
}

/// A line ends at the first line feed.
pub proof fn lemma_line_end_at(text: Seq<char>, start: int, end: int)
    requires
        0 <= start <= end < text.len(),
        text[end] == '\n',
        forall|i: int| start <= i < end ==> text[i] != '\n',
    ensures
        line_end(text, start) == end,
    decreases end - start,
{
    if start < end {
        lemma_line_end_at(text, start + 1, end);
    }
}

/// Where a line ends does not depend on what stands before it.
pub proof fn lemma_line_end_shift(text: Seq<char>, offset: int, k: int)
    requires
        0 <= offset <= text.len(),
        0 <= k,
    ensures
        line_end(text, offset + k) == offset + line_end(
            text.subrange(offset, text.len() as int),
            k,
        ),
    decreases text.len() - offset - k,
{
    let rest = text.subrange(offset, text.len() as int);
    if offset + k < text.len() && text[offset + k] != '\n' {
        assert(rest[k] == text[offset + k]);
        lemma_line_end_shift(text, offset, k + 1);
    } else if offset + k < text.len() {
        assert(rest[k] == text[offset + k]);
    }
}

/// The lines of a text from some point on are the lines of the rest of the text.
pub proof fn lemma_lines_shift(text: Seq<char>, offset: int, k: int)
    requires
        0 <= offset <= text.len(),
        0 <= k,
    ensures
        lines_from(text, offset + k) == lines_from(text.subrange(offset, text.len() as int), k),
    decreases text.len() - offset - k,
{
    let rest = text.subrange(offset, text.len() as int);
    if offset + k < text.len() {
        lemma_line_end_shift(text, offset, k);
        lemma_line_end(text, offset + k);
        lemma_line_end(rest, k);
        let end = line_end(text, offset + k);
        let rest_end = line_end(rest, k);
        assert(text.subrange(offset + k, end) =~= rest.subrange(k, rest_end));
        if end < text.len() {
            lemma_lines_shift(text, offset, rest_end + 1);
        }
    }
}

/// The lines, joined, begin with the first of them.
pub proof fn lemma_joined_front(lines: Seq<Seq<char>>)
    requires
        lines.len() >= 2,
    ensures
        joined(lines) == lines[0] + seq!['\n'] + joined(lines.drop_first()),
    decreases lines.len(),
{
    let shorter = lines.drop_last();
    let tail = lines.drop_first();
    if lines.len() == 2 {
        assert(shorter =~= seq![lines[0]]);
        assert(tail =~= seq![lines[1]]);
        assert(joined(shorter) == lines[0]);
        assert(joined(tail) == lines[1]);
    } else {
        lemma_joined_front(shorter);
        assert(shorter.drop_first() =~= tail.drop_last());
        assert(shorter[0] == lines[0]);
        assert(tail.last() == lines.last());
        assert(joined(lines) =~= lines[0] + seq!['\n'] + joined(tail));
    }
}

/// The lines, joined, end with the last of them.
pub proof fn lemma_joined_len(lines: Seq<Seq<char>>)
    requires
        lines.len() >= 1,
    ensures
        joined(lines).len() >= lines.last().len(),
{
}

/// A line that can be joined with others and read back: it holds no line feed
/// and does not end in a carriage return.
pub open spec fn plain_line(line: Seq<char>) -> bool {
    &&& forall|i: int| 0 <= i < line.len() ==> line[i] != '\n'
    &&& line.len() > 0 ==> line.last() != '\r'
}

/// Plain lines, the last of them not empty, are the lines of what they are when
/// joined.
pub proof fn lemma_lines_of_joined(lines: Seq<Seq<char>>)
    requires
        lines.len() >= 1,
        forall|i: int| 0 <= i < lines.len() ==> plain_line(#[trigger] lines[i]),
        lines.last().len() > 0,
    ensures
        lines_of(joined(lines)) == lines,
    decreases lines.len(),
{
    let text = joined(lines);
    if lines.len() == 1 {
        lemma_line_end_none(text, 0);
        assert(text.subrange(0, text.len() as int) =~= text);
        assert(lines_from(text, 0) =~= seq![text]);
        assert(lines =~= seq![lines[0]]);
    } else {
        let first = lines[0];
        let tail = lines.drop_first();
        let rest = joined(tail);
        lemma_joined_front(lines);
        assert(plain_line(first));
        assert(tail.last() == lines.last());
        assert forall|i: int| 0 <= i < tail.len() implies plain_line(#[trigger] tail[i]) by {
            assert(tail[i] == lines[i + 1]);
        }
        lemma_lines_of_joined(tail);
        lemma_joined_len(tail);
        let end = first.len() as int;
        assert(text[end] == '\n');
        assert forall|i: int| 0 <= i < end implies text[i] != '\n' by {
            assert(text[i] == first[i]);
        }
        lemma_line_end_at(text, 0, end);
        assert(text.subrange(0, end) =~= first);
        assert(strip_return(first, true) == first);
        assert(text.subrange(end + 1, text.len() as int) =~= rest);
        lemma_lines_shift(text, end + 1, 0);
        assert(lines_from(text, 0) =~= seq![first] + lines_from(text, end + 1));
        assert(lines =~= seq![first] + tail);
    }
}

/// The two characters that draw one corner of the grid: its glyph, and a
/// horizontal bar where the glyph has a right arm, a space where it has none.
pub open spec fn corner_text(bars: Bars) -> Seq<char> {
    seq![glyph_of(bars), if bars.right { '─' } else { ' ' }]
}

/// The characters that draw a row of corners.
pub open spec fn row_text(row: Seq<Bars>) -> Seq<char>
    decreases row.len(),
{
    if row.len() == 0 {
        Seq::empty()
    } else {
        row_text(row.drop_last()) + corner_text(row.last())
    }
}

/// The lines that draw the rows of corners, each without the spaces at its end
/// where `trim` holds.
pub open spec fn drawn_lines(rows: Seq<Seq<Bars>>, trim: bool) -> Seq<Seq<char>> {
    Seq::new(
        rows.len(),
        |i: int|
            if trim {
                trim_spaces(row_text(rows[i]))
            } else {
                row_text(rows[i])
            },
    )
}

/// The drawing of the rows of corners: one line for each row, a line feed between
/// each two lines.
pub open spec fn drawing(rows: Seq<Seq<Bars>>, trim: bool) -> Seq<char> {
    joined(drawn_lines(rows, trim))
}

/// The characters that draw a row of corners.
pub fn draw_row(row: &Vec<Bars>) -> (line: Vec<char>)
    ensures
        line@ == row_text(row@),
{
    let mut line: Vec<char> = Vec::new();
    let mut i: usize = 0;
    while i < row.len()
        invariant
            i <= row.len(),
            line@ == row_text(row@.subrange(0, i as int)),
        decreases row.len() - i,
    {
        let bars = row[i];
        line.push(glyph(bars));
        line.push(if bars.right { '─' } else { ' ' });
        proof {
            let next = row@.subrange(0, i + 1);
            assert(next.drop_last() =~= row@.subrange(0, i as int));
            assert(line@ =~= row_text(next.drop_last()) + corner_text(next.last()));
        }
        i += 1;
    }
    assert(row@.subrange(0, row.len() as int) =~= row@);
    line
}

/// Draws the rows of corners: one line for each row, without the spaces at its
/// end where `trim` holds, and a line feed between each two lines.
pub fn draw(rows: &Vec<Vec<Bars>>, trim: bool) -> (text: Vec<char>)
    ensures
        text@ == drawing(rows@.map_values(|row: Vec<Bars>| row@), trim),
{
    let ghost specs = rows@.map_values(|row: Vec<Bars>| row@);
    let ghost lines = drawn_lines(specs, trim);
    let mut text: Vec<char> = Vec::new();
    let mut i: usize = 0;
    while i < rows.len()
        invariant
            i <= rows.len(),
            specs == rows@.map_values(|row: Vec<Bars>| row@),
            lines == drawn_lines(specs, trim),
            text@ == joined(lines.subrange(0, i as int)),
        decreases rows.len() - i,
    {
        let mut line = draw_row(&rows[i]);
        if trim {
            trim_end(&mut line);
        }
        assert(line@ == lines[i as int]);
        if i > 0 {
            text.push('\n');
        }
        let ghost before = text@;
        let mut k: usize = 0;
        while k < line.len()
            invariant
                k <= line.len(),
                text@ == before + line@.subrange(0, k as int),
            decreases line.len() - k,
        {
            text.push(line[k]);
            k += 1;
            assert(text@ =~= before + line@.subrange(0, k as int));
        }
        proof {
            assert(line@.subrange(0, line.len() as int) =~= line@);
            let next = lines.subrange(0, i + 1);
            assert(next.drop_last() =~= lines.subrange(0, i as int));
            assert(next.last() == line@);
            if i == 0 {
                assert(text@ =~= line@);
            } else {
                assert(text@ =~= joined(next.drop_last()) + seq!['\n'] + next.last());
            }
        }
        i += 1;
    }
    assert(lines.subrange(0, rows.len() as int) =~= lines);
    text
}

} // verus!

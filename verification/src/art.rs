use vstd::prelude::*;

use crate::buffer::{Buffer, BufferView};
use crate::color::Color;
use crate::text::{char_at, chars_of, find_char, find_from};

verus! {

// ---------------------------------------------------------------------------
// Art text: lines of characters.
// ---------------------------------------------------------------------------

/// A line without the carriage return of a `\r\n` ending.
pub open spec fn strip_cr(l: Seq<char>) -> Seq<char> {
    if l.len() > 0 && l.last() == '\r' {
        l.drop_last()
    } else {
        l
    }
}

/// The lines of a text: it is split at each `\n` (a `\r` just before it
/// belongs to the ending), and the ending of the last line is optional.
pub open spec fn split_lines(t: Seq<char>) -> Seq<Seq<char>>
    decreases t.len(),
{
    let i = find_char(t, '\n');
    if t.len() == 0 {
        seq![]
    } else if i >= t.len() {
        seq![t]
    } else {
        seq![strip_cr(t.take(i as int))] + split_lines(t.skip(i as int + 1))
    }
}

/// No line of a text holds a line feed.
pub proof fn law_lines_hold_no_newline(t: Seq<char>)
    ensures
        forall|i: int, j: int|
            0 <= i < split_lines(t).len() && 0 <= j < split_lines(t)[i].len() ==> #[trigger] split_lines(
                t,
            )[i][j] != '\n',
    decreases t.len(),
{
    let k = find_char(t, '\n');
    crate::text::lemma_find_char_stops(t, '\n');
    if t.len() > 0 && k < t.len() {
        let rest = t.skip(k as int + 1);
        law_lines_hold_no_newline(rest);
        let first = strip_cr(t.take(k as int));
        let ls = split_lines(t);
        assert(ls == seq![first] + split_lines(rest));
        assert forall|i: int, j: int| 0 <= i < ls.len() && 0 <= j < ls[i].len() implies #[trigger] ls[i][j] != '\n' by {
            if i == 0 {
                assert(ls[0] == first);
                assert(first[j] == t[j]);
            } else {
                assert(ls[i] == split_lines(rest)[i - 1]);
            }
        }
    }
}

/// The text made of each line followed by its line ending.
pub open spec fn join_lines(lines: Seq<Seq<char>>, ends: Seq<Seq<char>>) -> Seq<char>
    decreases lines.len(),
{
    if lines.len() == 0 || ends.len() == 0 {
        seq![]
    } else {
        lines[0] + ends[0] + join_lines(lines.drop_first(), ends.drop_first())
    }
}

/// The ending that follows each line of `t`.
spec fn line_ends(t: Seq<char>) -> Seq<Seq<char>>
    decreases t.len(),
{
    let i = find_char(t, '\n');
    if t.len() == 0 {
        seq![]
    } else if i >= t.len() {
        seq![seq![]]
    } else {
        let head = t.take(i as int);
        let end = if head.len() > 0 && head.last() == '\r' {
            seq!['\r', '\n']
        } else {
            seq!['\n']
        };
        seq![end] + line_ends(t.skip(i as int + 1))
    }
}

/// The lines of a text give the text back when each is followed by its
/// ending: `\n`, `\r\n`, or nothing for a last line that has none (such a
/// line is not empty). A line ended by a bare `\n` does not end with `\r`
/// (that `\r` belongs to a `\r\n` ending), and no line holds a line feed.
pub proof fn law_lines_rejoin(t: Seq<char>)
    ensures
        exists|ends: Seq<Seq<char>>|
            {
                &&& ends.len() == split_lines(t).len()
                &&& #[trigger] join_lines(split_lines(t), ends) == t
                &&& forall|i: int|
                    0 <= i < split_lines(t).len() ==> (#[trigger] ends[i] == seq!['\n'] || ends[i] == seq![
                        '\r',
                        '\n',
                    ] || (i == split_lines(t).len() - 1 && ends[i] == Seq::<char>::empty() && split_lines(t)[i].len() > 0))
                &&& forall|i: int|
                    0 <= i < split_lines(t).len() && #[trigger] ends[i] == seq!['\n'] ==> !(split_lines(t)[i].len() > 0
                        && split_lines(t)[i].last() == '\r')
                &&& forall|i: int, j: int|
                    0 <= i < split_lines(t).len() && 0 <= j < split_lines(t)[i].len() ==> #[trigger] split_lines(t)[i][j] != '\n'
            },
    decreases t.len(),
{
    law_lines_hold_no_newline(t);
    let ls = split_lines(t);
    let ends = line_ends(t);
    let k = find_char(t, '\n');
    crate::text::lemma_find_char_stops(t, '\n');
    if t.len() == 0 {
        assert(join_lines(ls, ends) =~= t);
    } else if k >= t.len() {
        assert(ls.drop_first() =~= Seq::<Seq<char>>::empty());
        assert(join_lines(ls.drop_first(), ends.drop_first()) == Seq::<char>::empty());
        assert(join_lines(ls, ends) =~= t);
    } else {
        let rest = t.skip(k as int + 1);
        law_lines_rejoin(rest);
        let lr = split_lines(rest);
        let er = line_ends(rest);
        let head = t.take(k as int);
        let first = strip_cr(head);
        let end = ends[0];
        assert(ls == seq![first] + lr);
        assert(ends == seq![end] + er);
        assert(ls.drop_first() =~= lr);
        assert(ends.drop_first() =~= er);
        let ew = choose|e: Seq<Seq<char>>|
            {
                &&& e.len() == lr.len()
                &&& #[trigger] join_lines(lr, e) == rest
                &&& forall|i: int|
                    0 <= i < lr.len() ==> (#[trigger] e[i] == seq!['\n'] || e[i] == seq!['\r', '\n'] || (
                    i == lr.len() - 1 && e[i] == Seq::<char>::empty() && lr[i].len() > 0))
                &&& forall|i: int|
                    0 <= i < lr.len() && #[trigger] e[i] == seq!['\n'] ==> !(lr[i].len() > 0
                        && lr[i].last() == '\r')
                &&& forall|i: int, j: int|
                    0 <= i < lr.len() && 0 <= j < lr[i].len() ==> #[trigger] lr[i][j] != '\n'
            };
        let e2 = seq![end] + ew;
        assert(e2.drop_first() =~= ew);
        assert(first + end =~= t.take(k as int + 1));
        assert(join_lines(ls, e2) == first + end + join_lines(lr, ew));
        assert(t.take(k as int + 1) + rest =~= t);
        assert forall|i: int|
            0 <= i < ls.len() implies (#[trigger] e2[i] == seq!['\n'] || e2[i] == seq!['\r', '\n'] || (
            i == ls.len() - 1 && e2[i] == Seq::<char>::empty() && ls[i].len() > 0)) by {
            if i > 0 {
                assert(e2[i] == ew[i - 1]);
                assert(ls[i] == lr[i - 1]);
            }
        }
        assert forall|i: int|
            0 <= i < ls.len() && #[trigger] e2[i] == seq!['\n'] implies !(ls[i].len() > 0
                && ls[i].last() == '\r') by {
            if i > 0 {
                assert(e2[i] == ew[i - 1]);
                assert(ls[i] == lr[i - 1]);
            }
        }
    }
}

/// The models of a list of lines.
pub open spec fn lines_view(lines: Seq<Vec<char>>) -> Seq<Seq<char>> {
    lines.map_values(|l: Vec<char>| l@)
}

/// The art as a grid of characters, one row per line of `text`.
pub fn art_lines(text: &str) -> (lines: Vec<Vec<char>>)
    ensures
        lines_view(lines@) == split_lines(text@),
{
    let t = chars_of(text);
    let n = t.len();
    let mut lines: Vec<Vec<char>> = Vec::new();
    let mut start: usize = 0;
    assert(t@.skip(0) =~= t@);
    while start < n
        invariant
            n == t@.len(),
            t@ == text@,
            start <= n,
            split_lines(t@) == lines_view(lines@) + split_lines(t@.skip(start as int)),
        decreases n - start,
    {
        let ghost rest = t@.skip(start as int);
        let k = find_from(&t, start, '\n');
        let mut end = k;
        if k < n && end > start && t[end - 1] == '\r' {
            end = end - 1;
        }
        let mut line: Vec<char> = Vec::new();
        for j in start..end
            invariant
                n == t@.len(),
                start <= end <= n,
                line@ == t@.subrange(start as int, j as int),
        {
            line.push(t[j]);
            assert(line@ =~= t@.subrange(start as int, j + 1));
        }
        let ghost before = lines@;
        lines.push(line);
        proof {
            let i = k - start;
            assert(rest.len() > 0);
            if k < n {
                assert(rest.take(i as int) =~= t@.subrange(start as int, k as int));
                assert(line@ =~= strip_cr(rest.take(i as int)));
                assert(rest.skip(i as int + 1) =~= t@.skip(k + 1));
            } else {
                assert(line@ =~= rest);
                assert(t@.skip(n as int) =~= Seq::<char>::empty());
            }
            assert(lines_view(lines@) =~= lines_view(before).push(line@));
        }
        start = if k < n {
            k + 1
        } else {
            n
        };
        assert(split_lines(t@) =~= lines_view(lines@) + split_lines(t@.skip(start as int)));
    }
    assert(t@.skip(start as int) =~= Seq::<char>::empty());
    assert(lines_view(lines@) + Seq::<Seq<char>>::empty() =~= lines_view(lines@));
    lines
}

/// The length of the longest line (0 where there is none).
pub open spec fn max_len(lines: Seq<Seq<char>>) -> nat
    decreases lines.len(),
{
    if lines.len() == 0 {
        0
    } else {
        let m = max_len(lines.drop_last());
        if lines.last().len() > m {
            lines.last().len()
        } else {
            m
        }
    }
}

/// The longest length is at least the length of every line and is the
/// length of one of them (0 when there are none).
pub proof fn law_max_len_is_longest(lines: Seq<Seq<char>>)
    ensures
        forall|i: int| 0 <= i < lines.len() ==> max_len(lines) >= (#[trigger] lines[i]).len(),
        lines.len() > 0 ==> exists|i: int| 0 <= i < lines.len() && max_len(lines) == (#[trigger] lines[i]).len(),
        lines.len() == 0 ==> max_len(lines) == 0,
    decreases lines.len(),
{
    if lines.len() > 0 {
        let rest = lines.drop_last();
        law_max_len_is_longest(rest);
        assert forall|i: int| 0 <= i < lines.len() implies max_len(lines) >= (#[trigger] lines[i]).len() by {
            if i < rest.len() {
                assert(lines[i] == rest[i]);
            }
        }
        if lines.last().len() > max_len(rest) || rest.len() == 0 {
            assert(lines[lines.len() - 1] == lines.last());
        } else {
            let j = choose|j: int| 0 <= j < rest.len() && max_len(rest) == (#[trigger] rest[j]).len();
            assert(lines[j] == rest[j]);
        }
    }
}

/// The size of the art: its widest line and its number of lines.
pub fn art_size(lines: &Vec<Vec<char>>) -> (size: (usize, usize))
    ensures
        size.0 == max_len(lines_view(lines@)),
        size.1 == lines@.len(),
        forall|i: int| 0 <= i < lines@.len() ==> size.0 >= (#[trigger] lines@[i]).len(),
        lines@.len() > 0 ==> exists|i: int| 0 <= i < lines@.len() && size.0 == (#[trigger] lines@[i]).len(),
        lines@.len() == 0 ==> size.0 == 0,
{
    proof {
        law_max_len_is_longest(lines_view(lines@));
        let ls = lines_view(lines@);
        assert forall|i: int| 0 <= i < lines@.len() implies max_len(ls) >= (#[trigger] lines@[i]).len() by {
            assert(ls[i] == lines@[i]@);
        }
        if lines@.len() > 0 {
            let j = choose|j: int| 0 <= j < ls.len() && max_len(ls) == (#[trigger] ls[j]).len();
            assert(ls[j] == lines@[j]@);
        }
    }
    let mut widest: usize = 0;
    for i in 0..lines.len()
        invariant
            widest == max_len(lines_view(lines@).take(i as int)),
    {
        let ghost ls = lines_view(lines@);
        proof {
            assert(ls.take(i + 1).drop_last() =~= ls.take(i as int));
            assert(ls.take(i + 1).last() == lines@[i as int]@);
        }
        if lines[i].len() > widest {
            widest = lines[i].len();
        }
    }
    assert(lines_view(lines@).take(lines.len() as int) =~= lines_view(lines@));
    (widest, lines.len())
}

// ---------------------------------------------------------------------------
// Scaling art onto a grid.
// ---------------------------------------------------------------------------

/// How the art is sampled: the art line shown on each row of the scaled art,
/// and the column of that line shown on each of its columns.
#[derive(Clone, Debug)]
pub struct Sampling {
    pub rows: Vec<usize>,
    pub cols: Vec<usize>,
}

/// A cell where the art was drawn: its position on the grid, the row of the
/// scaled art it comes from, and its character.
#[derive(Clone, Copy, Debug, PartialEq, Eq, Structural)]
pub struct ArtCell {
    pub x: usize,
    pub y: usize,
    pub row: usize,
    pub ch: char,
}

/// What was drawn of the art.
#[derive(Clone, Debug)]
pub struct ArtDrawing {
    /// The row fallen leaves rest on: the lowest row drawn (0 if none),
    /// at most the height.
    pub ground: usize,
    /// The cells drawn, row after row, left to right.
    pub cells: Vec<ArtCell>,
}

/// The first column of the scaled art: it is centred.
pub open spec fn offset_x(width: nat, scaled_width: nat) -> nat {
    if width >= scaled_width {
        ((width - scaled_width) / 2) as nat
    } else {
        0
    }
}

/// The first row of the scaled art: it ends one row above the bottom.
pub open spec fn offset_y(height: nat, scaled_height: nat) -> nat {
    if height >= scaled_height + 1 {
        (height - scaled_height - 1) as nat
    } else {
        0
    }
}

/// The character at column `dx` of row `dy` of the scaled art.
pub open spec fn art_glyph(lines: Seq<Seq<char>>, rows: Seq<usize>, cols: Seq<usize>, dx: int, dy: int) -> char {
    lines[rows[dy] as int][cols[dx] as int]
}

/// Whether column `dx` of row `dy` of the scaled art shows something: it
/// samples a character of the art that is not blank.
pub open spec fn art_shows(lines: Seq<Seq<char>>, rows: Seq<usize>, cols: Seq<usize>, dx: int, dy: int) -> bool {
    let r = rows[dy] as int;
    let c = cols[dx] as int;
    r < lines.len() && c < lines[r].len() && lines[r][c] != ' '
}

/// The cells drawn from the first `n` columns of row `dy` of the scaled art.
pub open spec fn drawn_in_row(
    lines: Seq<Seq<char>>,
    rows: Seq<usize>,
    cols: Seq<usize>,
    width: nat,
    height: nat,
    dy: int,
    n: int,
) -> Seq<ArtCell>
    decreases n,
{
    if n <= 0 {
        seq![]
    } else {
        let before = drawn_in_row(lines, rows, cols, width, height, dy, n - 1);
        let dx = n - 1;
        let x = offset_x(width, cols.len()) + dx;
        let y = offset_y(height, rows.len()) + dy;
        if art_shows(lines, rows, cols, dx, dy) && x < width && y < height {
            before.push(
                ArtCell {
                    x: x as usize,
                    y: y as usize,
                    row: dy as usize,
                    ch: art_glyph(lines, rows, cols, dx, dy),
                },
            )
        } else {
            before
        }
    }
}

/// The cells drawn from the first `m` rows of the scaled art.
pub open spec fn drawn_cells(
    lines: Seq<Seq<char>>,
    rows: Seq<usize>,
    cols: Seq<usize>,
    width: nat,
    height: nat,
    m: int,
) -> Seq<ArtCell>
    decreases m,
{
    if m <= 0 {
        seq![]
    } else {
        drawn_cells(lines, rows, cols, width, height, m - 1) + drawn_in_row(
            lines,
            rows,
            cols,
            width,
            height,
            m - 1,
            cols.len() as int,
        )
    }
}

/// The grid with each of `cells` written in `color`.
pub open spec fn put_cells(v: BufferView, cells: Seq<ArtCell>, color: Color) -> BufferView
    decreases cells.len(),
{
    if cells.len() == 0 {
        v
    } else {
        put_cells(v, cells.drop_last(), color).put(
            cells.last().x as int,
            cells.last().y as int,
            Some((cells.last().ch, color)),
        )
    }
}

/// The lowest row among `cells` (0 if there are none).
pub open spec fn lowest_row(cells: Seq<ArtCell>) -> nat
    decreases cells.len(),
{
    if cells.len() == 0 {
        0
    } else {
        let m = lowest_row(cells.drop_last());
        if cells.last().y > m {
            cells.last().y as nat
        } else {
            m
        }
    }
}

proof fn lemma_put_cells_push(v: BufferView, cells: Seq<ArtCell>, cell: ArtCell, color: Color)
    ensures
        put_cells(v, cells.push(cell), color) == put_cells(v, cells, color).put(
            cell.x as int,
            cell.y as int,
            Some((cell.ch, color)),
        ),
        lowest_row(cells.push(cell)) == if cell.y > lowest_row(cells) {
            cell.y as nat
        } else {
            lowest_row(cells)
        },
{
    assert(cells.push(cell).drop_last() =~= cells);
}

proof fn lemma_drawn_in_row_draws(
    lines: Seq<Seq<char>>,
    rows: Seq<usize>,
    cols: Seq<usize>,
    width: nat,
    height: nat,
    dy: usize,
    dx: usize,
    cell: ArtCell,
)
    requires
        art_shows(lines, rows, cols, dx as int, dy as int),
        art_glyph(lines, rows, cols, dx as int, dy as int) == cell.ch,
        cell.x == offset_x(width, cols.len()) + dx,
        cell.y == offset_y(height, rows.len()) + dy,
        cell.row == dy,
        cell.x < width,
        cell.y < height,
    ensures
        drawn_in_row(lines, rows, cols, width, height, dy as int, dx + 1) == drawn_in_row(
            lines,
            rows,
            cols,
            width,
            height,
            dy as int,
            dx as int,
        ).push(cell),
{
    let x = offset_x(width, cols.len()) + dx;
    let y = offset_y(height, rows.len()) + dy;
    assert(x as usize == cell.x);
    assert(y as usize == cell.y);
    assert(cell == ArtCell { x: x as usize, y: y as usize, row: dy, ch: cell.ch });
}

proof fn lemma_concat_push(a: Seq<ArtCell>, b: Seq<ArtCell>, c: ArtCell)
    ensures
        a + b.push(c) == (a + b).push(c),
{
    assert(a + b.push(c) =~= (a + b).push(c));
}

proof fn lemma_drawn_in_row_skips(
    lines: Seq<Seq<char>>,
    rows: Seq<usize>,
    cols: Seq<usize>,
    width: nat,
    height: nat,
    dy: int,
    dx: int,
)
    requires
        0 <= dx,
        !(art_shows(lines, rows, cols, dx, dy) && offset_x(width, cols.len()) + dx < width
            && offset_y(height, rows.len()) + dy < height),
    ensures
        drawn_in_row(lines, rows, cols, width, height, dy, dx + 1) == drawn_in_row(
            lines,
            rows,
            cols,
            width,
            height,
            dy,
            dx,
        ),
{
}

/// Whether `a` comes before `b` in reading order (row after row, left to right).
pub open spec fn reads_before(a: ArtCell, b: ArtCell) -> bool {
    a.y < b.y || (a.y == b.y && a.x < b.x)
}

proof fn lemma_drawn_in_row_shape(
    lines: Seq<Seq<char>>,
    rows: Seq<usize>,
    cols: Seq<usize>,
    width: nat,
    height: nat,
    dy: int,
    n: int,
)
    requires
        0 <= dy,
        width <= usize::MAX,
        height <= usize::MAX,
    ensures
        ({
            let cells = drawn_in_row(lines, rows, cols, width, height, dy, n);
            &&& forall|k: int|
                0 <= k < cells.len() ==> (#[trigger] cells[k]).y == offset_y(height, rows.len()) + dy
                    && offset_x(width, cols.len()) <= cells[k].x < offset_x(width, cols.len()) + n
                    && cells[k].x < width && cells[k].y < height
            &&& forall|i: int, j: int|
                0 <= i < j < cells.len() ==> (#[trigger] cells[i]).x < (#[trigger] cells[j]).x
        }),
    decreases n,
{
    if n > 0 {
        lemma_drawn_in_row_shape(lines, rows, cols, width, height, dy, n - 1);
        let before = drawn_in_row(lines, rows, cols, width, height, dy, n - 1);
        let cells = drawn_in_row(lines, rows, cols, width, height, dy, n);
        let x = offset_x(width, cols.len()) + (n - 1);
        let y = offset_y(height, rows.len()) + dy;
        if art_shows(lines, rows, cols, n - 1, dy) && x < width && y < height {
            assert(cells.drop_last() =~= before);
            assert forall|k: int| 0 <= k < before.len() implies #[trigger] cells[k] == before[k] by {}
            assert(cells.last().x == x);
            assert(cells.last().y == y);
        } else {
            assert(cells == before);
        }
    }
}

proof fn lemma_drawn_cells_shape(
    lines: Seq<Seq<char>>,
    rows: Seq<usize>,
    cols: Seq<usize>,
    width: nat,
    height: nat,
    m: int,
)
    requires
        width <= usize::MAX,
        height <= usize::MAX,
    ensures
        ({
            let cells = drawn_cells(lines, rows, cols, width, height, m);
            &&& forall|k: int|
                0 <= k < cells.len() ==> (#[trigger] cells[k]).y < offset_y(height, rows.len()) + m
                    && cells[k].x < width && cells[k].y < height
            &&& forall|i: int, j: int|
                0 <= i < j < cells.len() ==> reads_before(#[trigger] cells[i], #[trigger] cells[j])
        }),
    decreases m,
{
    if m > 0 {
        lemma_drawn_cells_shape(lines, rows, cols, width, height, m - 1);
        lemma_drawn_in_row_shape(lines, rows, cols, width, height, m - 1, cols.len() as int);
        let a = drawn_cells(lines, rows, cols, width, height, m - 1);
        let b = drawn_in_row(lines, rows, cols, width, height, m - 1, cols.len() as int);
        let cells = a + b;
        assert forall|k: int| 0 <= k < cells.len() implies (#[trigger] cells[k]).y < offset_y(
            height,
            rows.len(),
        ) + m && cells[k].x < width && cells[k].y < height by {
            if k >= a.len() {
                assert(cells[k] == b[k - a.len()]);
            }
        }
        assert forall|i: int, j: int| 0 <= i < j < cells.len() implies reads_before(
            #[trigger] cells[i],
            #[trigger] cells[j],
        ) by {
            if j < a.len() {
                assert(cells[i] == a[i] && cells[j] == a[j]);
            } else if i >= a.len() {
                assert(cells[i] == b[i - a.len()] && cells[j] == b[j - a.len()]);
            } else {
                assert(cells[i] == a[i] && cells[j] == b[j - a.len()]);
            }
        }
    }
}

proof fn lemma_drawn_in_row_content(
    lines: Seq<Seq<char>>,
    rows: Seq<usize>,
    cols: Seq<usize>,
    width: nat,
    height: nat,
    dy: int,
    n: int,
)
    requires
        0 <= dy <= usize::MAX,
        width <= usize::MAX,
        height <= usize::MAX,
    ensures
        ({
            let cells = drawn_in_row(lines, rows, cols, width, height, dy, n);
            let ox = offset_x(width, cols.len());
            let oy = offset_y(height, rows.len());
            &&& forall|k: int|
                0 <= k < cells.len() ==> (#[trigger] cells[k]).row == dy && art_shows(
                    lines,
                    rows,
                    cols,
                    cells[k].x - ox,
                    dy,
                ) && cells[k].ch == art_glyph(lines, rows, cols, cells[k].x - ox, dy)
            &&& forall|dx: int|
                0 <= dx < n && #[trigger] art_shows(lines, rows, cols, dx, dy) && ox + dx < width
                    && oy + dy < height ==> exists|k: int|
                    0 <= k < cells.len() && (#[trigger] cells[k]).x == ox + dx
        }),
    decreases n,
{
    lemma_drawn_in_row_shape(lines, rows, cols, width, height, dy, n);
    if n > 0 {
        lemma_drawn_in_row_content(lines, rows, cols, width, height, dy, n - 1);
        let before = drawn_in_row(lines, rows, cols, width, height, dy, n - 1);
        let cells = drawn_in_row(lines, rows, cols, width, height, dy, n);
        let ox = offset_x(width, cols.len());
        let oy = offset_y(height, rows.len());
        let x = ox + (n - 1);
        let y = oy + dy;
        if art_shows(lines, rows, cols, n - 1, dy) && x < width && y < height {
            assert(cells.drop_last() =~= before);
            assert forall|k: int| 0 <= k < before.len() implies #[trigger] cells[k] == before[k] by {}
            assert(cells.last().x == x);
            assert(cells[cells.len() - 1] == cells.last());
            assert forall|dx: int|
                0 <= dx < n && #[trigger] art_shows(lines, rows, cols, dx, dy) && ox + dx < width
                    && oy + dy < height implies exists|k: int|
                    0 <= k < cells.len() && (#[trigger] cells[k]).x == ox + dx by {
                if dx < n - 1 {
                    let k = choose|k: int| 0 <= k < before.len() && (#[trigger] before[k]).x == ox + dx;
                    assert(cells[k] == before[k]);
                } else {
                    assert(cells[cells.len() - 1].x == ox + dx);
                }
            }
        } else {
            assert(cells == before);
        }
    }
}

proof fn lemma_drawn_cells_content(
    lines: Seq<Seq<char>>,
    rows: Seq<usize>,
    cols: Seq<usize>,
    width: nat,
    height: nat,
    m: int,
)
    requires
        m <= usize::MAX + 1,
        width <= usize::MAX,
        height <= usize::MAX,
    ensures
        ({
            let cells = drawn_cells(lines, rows, cols, width, height, m);
            let ox = offset_x(width, cols.len());
            let oy = offset_y(height, rows.len());
            &&& forall|k: int|
                0 <= k < cells.len() ==> 0 <= (#[trigger] cells[k]).row < m && cells[k].y == oy
                    + cells[k].row && ox <= cells[k].x < ox + cols.len() && art_shows(
                    lines,
                    rows,
                    cols,
                    cells[k].x - ox,
                    cells[k].row as int,
                ) && cells[k].ch == art_glyph(lines, rows, cols, cells[k].x - ox, cells[k].row as int)
            &&& forall|dx: int, dy: int|
                0 <= dy < m && 0 <= dx < cols.len() && #[trigger] art_shows(lines, rows, cols, dx, dy)
                    && ox + dx < width && oy + dy < height ==> exists|k: int|
                    0 <= k < cells.len() && (#[trigger] cells[k]).x == ox + dx && cells[k].y == oy + dy
        }),
    decreases m,
{
    if m > 0 {
        lemma_drawn_cells_content(lines, rows, cols, width, height, m - 1);
        lemma_drawn_in_row_shape(lines, rows, cols, width, height, m - 1, cols.len() as int);
        lemma_drawn_in_row_content(lines, rows, cols, width, height, m - 1, cols.len() as int);
        let a = drawn_cells(lines, rows, cols, width, height, m - 1);
        let b = drawn_in_row(lines, rows, cols, width, height, m - 1, cols.len() as int);
        let cells = a + b;
        let ox = offset_x(width, cols.len());
        let oy = offset_y(height, rows.len());
        assert(cells == drawn_cells(lines, rows, cols, width, height, m));
        assert forall|k: int| 0 <= k < cells.len() implies 0 <= (#[trigger] cells[k]).row < m
            && cells[k].y == oy + cells[k].row && ox <= cells[k].x < ox + cols.len() && art_shows(
            lines,
            rows,
            cols,
            cells[k].x - ox,
            cells[k].row as int,
        ) && cells[k].ch == art_glyph(lines, rows, cols, cells[k].x - ox, cells[k].row as int) by {
            if k >= a.len() {
                assert(cells[k] == b[k - a.len()]);
            } else {
                assert(cells[k] == a[k]);
            }
        }
        assert forall|dx: int, dy: int|
            0 <= dy < m && 0 <= dx < cols.len() && #[trigger] art_shows(lines, rows, cols, dx, dy)
                && ox + dx < width && oy + dy < height implies exists|k: int|
                0 <= k < cells.len() && (#[trigger] cells[k]).x == ox + dx && cells[k].y == oy + dy by {
            if dy < m - 1 {
                let k = choose|k: int|
                    0 <= k < a.len() && (#[trigger] a[k]).x == ox + dx && a[k].y == oy + dy;
                assert(cells[k] == a[k]);
            } else {
                let k = choose|k: int| 0 <= k < b.len() && (#[trigger] b[k]).x == ox + dx;
                assert(cells[a.len() + k] == b[k]);
            }
        }
    }
}

/// The highest row among cells is at least each cell's row and is the row
/// of one of them (0 when there are none).
pub proof fn law_lowest_row_is_bottom(cells: Seq<ArtCell>)
    ensures
        forall|k: int| 0 <= k < cells.len() ==> (#[trigger] cells[k]).y <= lowest_row(cells),
        cells.len() > 0 ==> exists|k: int| 0 <= k < cells.len() && (#[trigger] cells[k]).y == lowest_row(cells),
        cells.len() == 0 ==> lowest_row(cells) == 0,
    decreases cells.len(),
{
    if cells.len() > 0 {
        let rest = cells.drop_last();
        law_lowest_row_is_bottom(rest);
        assert forall|k: int| 0 <= k < cells.len() implies (#[trigger] cells[k]).y <= lowest_row(cells) by {
            if k < rest.len() {
                assert(cells[k] == rest[k]);
            }
        }
        if cells.last().y > lowest_row(rest) || rest.len() == 0 {
            assert(cells[cells.len() - 1] == cells.last());
        } else {
            let j = choose|j: int| 0 <= j < rest.len() && (#[trigger] rest[j]).y == lowest_row(rest);
            assert(cells[j] == rest[j]);
        }
    }
}

/// Where drawn art lands: the scaled art is centred across the grid and,
/// when the grid is taller than it, its last row is drawn one row above the
/// bottom (row `height - 2`). Each cell drawn from scaled row `dy` and
/// column `dx` lies at column `(width - columns) / 2 + dx` and row
/// `height - rows - 1 + dy` and shows the sampled character, which is not a
/// blank; and every sampled non-blank character that lands inside the grid
/// is drawn.
pub proof fn law_draw_art_places(
    lines: Seq<Seq<char>>,
    rows: Seq<usize>,
    cols: Seq<usize>,
    width: nat,
    height: nat,
)
    requires
        rows.len() <= usize::MAX,
        width <= usize::MAX,
        height <= usize::MAX,
    ensures
        ({
            let cells = drawn_cells(lines, rows, cols, width, height, rows.len() as int);
            let ox: int = if width >= cols.len() {
                (width - cols.len()) / 2
            } else {
                0
            };
            let oy: int = if height >= rows.len() + 1 {
                height - rows.len() - 1
            } else {
                0
            };
            &&& forall|k: int|
                0 <= k < cells.len() ==> {
                    let c = #[trigger] cells[k];
                    let r = rows[c.row as int] as int;
                    let dx = c.x - ox;
                    &&& 0 <= c.row < rows.len()
                    &&& c.y == oy + c.row
                    &&& 0 <= dx < cols.len()
                    &&& c.x < width
                    &&& c.y < height
                    &&& r < lines.len()
                    &&& cols[dx] < lines[r].len()
                    &&& c.ch == lines[r][cols[dx] as int]
                    &&& c.ch != ' '
                }
            &&& forall|dx: int, dy: int|
                0 <= dy < rows.len() && 0 <= dx < cols.len() && (rows[dy] as int) < lines.len() && (
                cols[dx] as int) < lines[rows[dy] as int].len() && #[trigger] lines[rows[dy] as int][cols[dx] as int]
                    != ' ' && ox + dx < width && oy + dy < height ==> exists|k: int|
                    0 <= k < cells.len() && (#[trigger] cells[k]).x == ox + dx && cells[k].y == oy + dy
        }),
{
    lemma_drawn_cells_shape(lines, rows, cols, width, height, rows.len() as int);
    lemma_drawn_cells_content(lines, rows, cols, width, height, rows.len() as int);
    let cells = drawn_cells(lines, rows, cols, width, height, rows.len() as int);
    let ox = offset_x(width, cols.len());
    let oy = offset_y(height, rows.len());
    assert forall|dx: int, dy: int|
        0 <= dy < rows.len() && 0 <= dx < cols.len() && (rows[dy] as int) < lines.len() && (
        cols[dx] as int) < lines[rows[dy] as int].len() && #[trigger] lines[rows[dy] as int][cols[dx] as int]
            != ' ' && ox + dx < width && oy + dy < height implies exists|k: int|
            0 <= k < cells.len() && (#[trigger] cells[k]).x == ox + dx && cells[k].y == oy + dy by {
        assert(art_shows(lines, rows, cols, dx, dy));
    }
}

proof fn lemma_put_cells(v: BufferView, cells: Seq<ArtCell>, color: Color, x: int, y: int)
    requires
        v.wf(),
        v.in_bounds(x, y),
        forall|k: int| 0 <= k < cells.len() ==> v.in_bounds((#[trigger] cells[k]).x as int, cells[k].y as int),
        forall|i: int, j: int|
            0 <= i < j < cells.len() ==> reads_before(#[trigger] cells[i], #[trigger] cells[j]),
    ensures
        put_cells(v, cells, color).wf(),
        put_cells(v, cells, color).width == v.width,
        put_cells(v, cells, color).height == v.height,
        forall|k: int|
            0 <= k < cells.len() && (#[trigger] cells[k]).x == x && cells[k].y == y ==> put_cells(
                v,
                cells,
                color,
            ).cell(x, y) == Some((cells[k].ch, color)),
        (forall|k: int| 0 <= k < cells.len() ==> !((#[trigger] cells[k]).x == x && cells[k].y == y))
            ==> put_cells(v, cells, color).cell(x, y) == v.cell(x, y),
    decreases cells.len(),
{
    if cells.len() > 0 {
        let rest = cells.drop_last();
        let last = cells.last();
        lemma_put_cells(v, rest, color, x, y);
        let before = put_cells(v, rest, color);
        crate::buffer::law_put_then_cell(before, last.x as int, last.y as int, Some((last.ch, color)), x, y);
        assert forall|k: int|
            0 <= k < cells.len() && (#[trigger] cells[k]).x == x && cells[k].y == y implies put_cells(
                v,
                cells,
                color,
            ).cell(x, y) == Some((cells[k].ch, color)) by {
            if k < cells.len() - 1 {
                assert(reads_before(cells[k], cells[cells.len() - 1]));
                assert(rest[k] == cells[k]);
            }
        }
        if forall|k: int| 0 <= k < cells.len() ==> !((#[trigger] cells[k]).x == x && cells[k].y == y) {
            assert forall|k: int| 0 <= k < rest.len() implies !((#[trigger] rest[k]).x == x && rest[k].y == y) by {
                assert(rest[k] == cells[k]);
            }
            assert(!(cells[cells.len() - 1].x == x && cells[cells.len() - 1].y == y));
        }
    }
}

/// Drawing art keeps the grid's size and well-formedness; every cell drawn
/// lies inside the grid and shows its character in the art's colour, the
/// cells are drawn in reading order (so no position is drawn twice), and
/// every position not drawn keeps what it held.
pub proof fn law_draw_art_cells(
    v: BufferView,
    lines: Seq<Seq<char>>,
    rows: Seq<usize>,
    cols: Seq<usize>,
    color: Color,
    x: int,
    y: int,
)
    requires
        v.wf(),
        v.in_bounds(x, y),
    ensures
        ({
            let cells = drawn_cells(lines, rows, cols, v.width, v.height, rows.len() as int);
            let after = put_cells(v, cells, color);
            &&& after.wf()
            &&& after.width == v.width
            &&& after.height == v.height
            &&& forall|k: int|
                0 <= k < cells.len() ==> v.in_bounds((#[trigger] cells[k]).x as int, cells[k].y as int)
            &&& forall|i: int, j: int|
                0 <= i < j < cells.len() ==> reads_before(#[trigger] cells[i], #[trigger] cells[j])
            &&& forall|k: int|
                0 <= k < cells.len() && (#[trigger] cells[k]).x == x && cells[k].y == y
                    ==> after.cell(x, y) == Some((cells[k].ch, color))
            &&& (forall|k: int|
                0 <= k < cells.len() ==> !((#[trigger] cells[k]).x == x && cells[k].y == y))
                ==> after.cell(x, y) == v.cell(x, y)
        }),
{
    lemma_drawn_cells_shape(lines, rows, cols, v.width, v.height, rows.len() as int);
    let cells = drawn_cells(lines, rows, cols, v.width, v.height, rows.len() as int);
    lemma_put_cells(v, cells, color, x, y);
}

impl Buffer {
    /// Draws the sampled art into this buffer in `color`, centred, its last
    /// row one above the bottom; blanks and cells that land outside are
    /// skipped. Returns the cells drawn and the row leaves rest on.
    pub fn draw_art(&mut self, lines: &Vec<Vec<char>>, sampling: &Sampling, color: Color) -> (d: ArtDrawing)
        requires
            old(self)@.wf(),
            sampling.rows@.len() < usize::MAX,
        ensures
            ({
                let cells = drawn_cells(
                    lines_view(lines@),
                    sampling.rows@,
                    sampling.cols@,
                    old(self)@.width,
                    old(self)@.height,
                    sampling.rows@.len() as int,
                );
                &&& d.cells@ == cells
                &&& final(self)@ == put_cells(old(self)@, cells, color)
                &&& d.ground == if old(self)@.height < lowest_row(cells) {
                    old(self)@.height
                } else {
                    lowest_row(cells)
                }
            }),
            final(self)@.wf(),
            old(self)@.height >= sampling.rows@.len() + 1 ==> forall|k: int|
                0 <= k < d.cells@.len() ==> (#[trigger] d.cells@[k]).y == old(self)@.height
                    - sampling.rows@.len() - 1 + d.cells@[k].row,
            forall|k: int|
                0 <= k < d.cells@.len() ==> (#[trigger] d.cells@[k]).y < old(self)@.height
                    && d.cells@[k].x < old(self)@.width && d.cells@[k].ch != ' ',
            forall|k: int| 0 <= k < d.cells@.len() ==> (#[trigger] d.cells@[k]).y <= d.ground,
            d.cells@.len() > 0 ==> exists|k: int|
                0 <= k < d.cells@.len() && (#[trigger] d.cells@[k]).y == d.ground,
            d.cells@.len() == 0 ==> d.ground == 0,
    {
        let width = self.width();
        let height = self.height();
        let sw = sampling.cols.len();
        let sh = sampling.rows.len();
        let ox: usize = if width >= sw {
            (width - sw) / 2
        } else {
            0
        };
        let oy: usize = if height >= sh + 1 {
            height - sh - 1
        } else {
            0
        };
        let ghost ls = lines_view(lines@);
        let ghost rs = sampling.rows@;
        let ghost cs = sampling.cols@;
        let ghost v0 = self@;
        let mut cells: Vec<ArtCell> = Vec::new();
        let mut lowest: usize = 0;
        for dy in 0..sh
            invariant
                width == v0.width,
                height == v0.height,
                sh == rs.len(),
                sw == cs.len(),
                rs == sampling.rows@,
                cs == sampling.cols@,
                ls == lines_view(lines@),
                ox == offset_x(v0.width, sw as nat),
                oy == offset_y(v0.height, sh as nat),
                cells@ == drawn_cells(ls, rs, cs, v0.width, v0.height, dy as int),
                self@ == put_cells(v0, cells@, color),
                self@.wf(),
                lowest == lowest_row(cells@),
        {
            let ghost before = cells@;
            let r = sampling.rows[dy];
            for dx in 0..sw
                invariant
                    width == v0.width,
                    height == v0.height,
                    sh == rs.len(),
                    sw == cs.len(),
                    dy < sh,
                    rs == sampling.rows@,
                    cs == sampling.cols@,
                    r == rs[dy as int],
                    ls == lines_view(lines@),
                    ox == offset_x(v0.width, sw as nat),
                    oy == offset_y(v0.height, sh as nat),
                    cells@ == before + drawn_in_row(ls, rs, cs, v0.width, v0.height, dy as int, dx as int),
                    before == drawn_cells(ls, rs, cs, v0.width, v0.height, dy as int),
                    self@ == put_cells(v0, cells@, color),
                    self@.wf(),
                    lowest == lowest_row(cells@),
            {
                let ghost prev = cells@;
                let c = sampling.cols[dx];
                let ghost so_far = drawn_in_row(ls, rs, cs, v0.width, v0.height, dy as int, dx as int);
                let ghost next = drawn_in_row(ls, rs, cs, v0.width, v0.height, dy as int, dx + 1);
                if r < lines.len() && c < lines[r].len() {
                    let ch = char_at(&lines[r], c);
                    proof {
                        assert(ls[r as int] == lines@[r as int]@);
                        assert(ch == ' ' ==> !art_shows(ls, rs, cs, dx as int, dy as int));
                        assert(ch != ' ' ==> art_shows(ls, rs, cs, dx as int, dy as int));
                        assert(art_glyph(ls, rs, cs, dx as int, dy as int) == ch);
                    }
                    if ch != ' ' && dx < width - ox && oy + dy < height {
                        let x = ox + dx;
                        let y = oy + dy;
                        self.write_char(x, y, ch, color);
                        let cell = ArtCell { x: x, y: y, row: dy, ch: ch };
                        cells.push(cell);
                        proof {
                            lemma_put_cells_push(v0, prev, cell, color);
                            lemma_drawn_in_row_draws(ls, rs, cs, v0.width, v0.height, dy, dx, cell);
                            lemma_concat_push(before, so_far, cell);
                            assert(cells@ == before + next);
                        }
                        if y > lowest {
                            lowest = y;
                        }
                    } else {
                        proof {
                            lemma_drawn_in_row_skips(ls, rs, cs, v0.width, v0.height, dy as int, dx as int);
                        }
                    }
                } else {
                    proof {
                        lemma_drawn_in_row_skips(ls, rs, cs, v0.width, v0.height, dy as int, dx as int);
                    }
                }
            }
            assert(before + drawn_in_row(ls, rs, cs, v0.width, v0.height, dy as int, sw as int)
                =~= drawn_cells(ls, rs, cs, v0.width, v0.height, dy + 1));
        }
        let ground = if height < lowest {
            height
        } else {
            lowest
        };
        proof {
            law_draw_art_places(ls, rs, cs, v0.width, v0.height);
            law_lowest_row_is_bottom(cells@);
        }
        ArtDrawing { ground, cells }
    }
}

} // verus!

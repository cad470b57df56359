use vstd::prelude::*;

use crate::buffer::{Buffer, BufferView, Cell};
use crate::color::Color;
use crate::text::push_char;

verus! {

/// One instruction to the terminal.
#[derive(Clone, Debug, PartialEq, Eq)]
pub enum DrawCommand {
    /// Moves the cursor to column `.0`, row `.1`.
    MoveTo(usize, usize),
    /// Sets the colour that following text is printed in.
    SetForegroundColor(Color),
    /// Goes back to the terminal's default colour.
    ResetColor,
    /// Prints the text at the cursor, which moves one column per character.
    Print(String),
}

/// The mathematical model of a [`DrawCommand`].
pub enum PaintOp {
    MoveTo(nat, nat),
    SetForeground(Color),
    Reset,
    Print(Seq<char>),
}

impl View for DrawCommand {
    type V = PaintOp;

    open spec fn view(&self) -> PaintOp {
        match self {
            DrawCommand::MoveTo(x, y) => PaintOp::MoveTo(*x as nat, *y as nat),
            DrawCommand::SetForegroundColor(c) => PaintOp::SetForeground(*c),
            DrawCommand::ResetColor => PaintOp::Reset,
            DrawCommand::Print(s) => PaintOp::Print(s@),
        }
    }
}

/// The models of a list of commands.
pub open spec fn ops_of(cmds: Seq<DrawCommand>) -> Seq<PaintOp> {
    cmds.map_values(|c: DrawCommand| c@)
}

/// The colour a cell is drawn in; `None` for an empty cell.
pub open spec fn key(c: Cell) -> Option<Color> {
    match c {
        Some((_, col)) => Some(col),
        None => None,
    }
}

/// The character a cell shows: its own, or a blank for an empty cell.
pub open spec fn glyph(c: Cell) -> char {
    match c {
        Some((ch, _)) => ch,
        None => ' ',
    }
}

/// A row cut into maximal runs of cells drawn alike: each run is its colour
/// (`None` for empty cells) and the characters it shows.
pub open spec fn runs(row: Seq<Cell>) -> Seq<(Option<Color>, Seq<char>)>
    decreases row.len(),
{
    if row.len() == 0 {
        seq![]
    } else {
        let r = runs(row.drop_last());
        let c = row.last();
        if r.len() > 0 && r.last().0 == key(c) {
            r.update(r.len() - 1, (key(c), r.last().1.push(glyph(c))))
        } else {
            r.push((key(c), seq![glyph(c)]))
        }
    }
}

/// What precedes the text of a run: its colour, or a reset to the default
/// colour for a run of empty cells that does not open its row.
pub open spec fn run_prefix(run: (Option<Color>, Seq<char>), first: bool) -> Seq<PaintOp> {
    match run.0 {
        Some(col) => seq![PaintOp::SetForeground(col)],
        None => if first {
            seq![]
        } else {
            seq![PaintOp::Reset]
        },
    }
}

/// The commands that draw the runs `rs` of a row, the first of them opening it.
pub open spec fn runs_ops(rs: Seq<(Option<Color>, Seq<char>)>) -> Seq<PaintOp>
    decreases rs.len(),
{
    if rs.len() == 0 {
        seq![]
    } else {
        runs_ops(rs.drop_last()) + run_prefix(rs.last(), rs.len() == 1) + seq![
            PaintOp::Print(rs.last().1),
        ]
    }
}

/// The commands that draw one row, from its first column on.
pub open spec fn row_ops(row: Seq<Cell>) -> Seq<PaintOp> {
    runs_ops(runs(row))
}

/// The commands that draw the first `n` rows of a grid.
pub open spec fn rows_ops(v: BufferView, n: nat) -> Seq<PaintOp>
    decreases n,
{
    if n == 0 {
        seq![]
    } else {
        rows_ops(v, (n - 1) as nat) + seq![PaintOp::MoveTo(0, (n - 1) as nat)] + row_ops(
            v.row(n - 1),
        )
    }
}

/// The commands that draw a whole grid and then restore the default colour.
pub open spec fn frame_ops(v: BufferView) -> Seq<PaintOp> {
    rows_ops(v, v.height) + seq![PaintOp::Reset]
}

/// A model of a terminal: what each position shows (a character in a
/// colour, `None` being the default colour), the cursor and the current colour.
#[verifier::ext_equal]
pub struct Terminal {
    pub screen: spec_fn(int, int) -> (char, Option<Color>),
    pub x: int,
    pub y: int,
    pub pen: Option<Color>,
}

/// The terminal after one command.
pub open spec fn apply(t: Terminal, op: PaintOp) -> Terminal {
    match op {
        PaintOp::MoveTo(x, y) => Terminal { screen: t.screen, x: x as int, y: y as int, pen: t.pen },
        PaintOp::SetForeground(c) => Terminal { screen: t.screen, x: t.x, y: t.y, pen: Some(c) },
        PaintOp::Reset => Terminal { screen: t.screen, x: t.x, y: t.y, pen: None },
        PaintOp::Print(s) => Terminal {
            screen: |px: int, py: int|
                if py == t.y && t.x <= px < t.x + s.len() {
                    (s[px - t.x], t.pen)
                } else {
                    (t.screen)(px, py)
                },
            x: t.x + s.len(),
            y: t.y,
            pen: t.pen,
        },
    }
}

/// The terminal after a list of commands, in order.
pub open spec fn apply_all(t: Terminal, ops: Seq<PaintOp>) -> Terminal
    decreases ops.len(),
{
    if ops.len() == 0 {
        t
    } else {
        apply(apply_all(t, ops.drop_last()), ops.last())
    }
}

/// Running two lists of commands one after the other is running their concatenation.
pub proof fn lemma_apply_all_concat(t: Terminal, a: Seq<PaintOp>, b: Seq<PaintOp>)
    ensures
        apply_all(t, a + b) == apply_all(apply_all(t, a), b),
    decreases b.len(),
{
    if b.len() == 0 {
        assert(a + b =~= a);
    } else {
        assert((a + b).drop_last() =~= a + b.drop_last());
        lemma_apply_all_concat(t, a, b.drop_last());
    }
}

proof fn lemma_print_push(u: Terminal, s: Seq<char>, g: char)
    ensures
        apply(u, PaintOp::Print(s.push(g))) == apply(apply(u, PaintOp::Print(s)), PaintOp::Print(seq![g])),
{
    let l = apply(u, PaintOp::Print(s.push(g)));
    let r = apply(apply(u, PaintOp::Print(s)), PaintOp::Print(seq![g]));
    assert(l.screen =~= r.screen);
    assert(l =~= r);
}

/// Drawing a row from the cursor writes the row's characters along the
/// cursor's line, each non-empty cell in its own colour, and nothing else.
proof fn lemma_row_ops(t: Terminal, row: Seq<Cell>)
    ensures
        ({
            let u = apply_all(t, row_ops(row));
            &&& u.y == t.y
            &&& u.x == t.x + row.len()
            &&& forall|px: int, py: int|
                !(py == t.y && t.x <= px < t.x + row.len()) ==> #[trigger] (u.screen)(px, py)
                    == (t.screen)(px, py)
            &&& forall|k: int|
                0 <= k < row.len() ==> (#[trigger] (u.screen)(t.x + k, t.y)).0 == glyph(row[k])
                    && (row[k] is Some ==> (u.screen)(t.x + k, t.y).1 == key(row[k]))
            &&& row.len() > 0 && key(row.last()) is Some ==> u.pen == key(row.last())
        }),
    decreases row.len(),
{
    if row.len() == 0 {
        assert(runs(row) =~= Seq::<(Option<Color>, Seq<char>)>::empty());
    } else {
        let prev = row.drop_last();
        let c = row.last();
        let g = glyph(c);
        lemma_row_ops(t, prev);
        let rs = runs(prev);
        let u0 = apply_all(t, row_ops(prev));
        let u = apply_all(t, row_ops(row));
        if rs.len() > 0 && rs.last().0 == key(c) {
            lemma_last_run_nonempty(prev);
            let rs2 = runs(row);
            assert(rs2.drop_last() =~= rs.drop_last());
            let a = runs_ops(rs.drop_last()) + run_prefix(rs.last(), rs.len() == 1);
            assert(row_ops(prev) == a + seq![PaintOp::Print(rs.last().1)]);
            assert(row_ops(row) == a + seq![PaintOp::Print(rs.last().1.push(g))]);
            assert((a + seq![PaintOp::Print(rs.last().1)]).drop_last() =~= a);
            assert((a + seq![PaintOp::Print(rs.last().1.push(g))]).drop_last() =~= a);
            lemma_print_push(apply_all(t, a), rs.last().1, g);
            assert(u == apply(u0, PaintOp::Print(seq![g])));
        } else {
            let rs2 = runs(row);
            assert(rs2.drop_last() =~= rs);
            let tail = run_prefix(rs2.last(), rs2.len() == 1) + seq![PaintOp::Print(seq![g])];
            assert(row_ops(row) =~= row_ops(prev) + tail);
            lemma_apply_all_concat(t, row_ops(prev), tail);
            let pre = run_prefix(rs2.last(), rs2.len() == 1);
            assert(tail.drop_last() =~= pre);
            let u1 = apply_all(u0, pre);
            if pre.len() == 1 {
                assert(pre.drop_last() =~= Seq::<PaintOp>::empty());
                assert(apply_all(u0, pre.drop_last()) == u0);
                assert(u1 == apply(u0, pre.last()));
            } else {
                assert(pre =~= Seq::<PaintOp>::empty());
            }
            assert(u1.screen == u0.screen && u1.x == u0.x && u1.y == u0.y);
            assert(key(c) is Some ==> u1.pen == key(c));
            assert(u == apply(u1, PaintOp::Print(seq![g])));
        }
        assert forall|k: int| 0 <= k < row.len() implies (#[trigger] (u.screen)(t.x + k, t.y)).0
            == glyph(row[k]) && (row[k] is Some ==> (u.screen)(t.x + k, t.y).1 == key(row[k])) by {
            if k < prev.len() {
                assert(row[k] == prev[k]);
            }
        }
    }
}

/// The terminal after the first `n` rows of a grid were drawn shows those
/// rows and is unchanged elsewhere.
proof fn lemma_rows_ops(t: Terminal, v: BufferView, n: nat)
    requires
        v.wf(),
        n <= v.height,
    ensures
        ({
            let u = apply_all(t, rows_ops(v, n));
            &&& forall|px: int, py: int|
                !(0 <= px < v.width && 0 <= py < n) ==> #[trigger] (u.screen)(px, py) == (
                t.screen)(px, py)
            &&& forall|px: int, py: int|
                0 <= px < v.width && 0 <= py < n ==> (#[trigger] (u.screen)(px, py)).0 == glyph(
                    v.cell(px, py),
                ) && (v.cell(px, py) is Some ==> (u.screen)(px, py).1 == key(v.cell(px, py)))
        }),
    decreases n,
{
    if n == 0 {
        assert(rows_ops(v, 0) =~= Seq::<PaintOp>::empty());
    } else {
        let m = (n - 1) as nat;
        lemma_rows_ops(t, v, m);
        let before = rows_ops(v, m) + seq![PaintOp::MoveTo(0, m)];
        let row = v.row(m as int);
        crate::buffer::lemma_row_in_storage(v, m as int);
        lemma_apply_all_concat(t, before, row_ops(row));
        assert(before.drop_last() =~= rows_ops(v, m));
        let u0 = apply_all(t, rows_ops(v, m));
        let u1 = apply_all(t, before);
        assert(u1 == apply(u0, PaintOp::MoveTo(0, m)));
        lemma_row_ops(u1, row);
        let u = apply_all(t, rows_ops(v, n));
        assert forall|px: int, py: int|
            0 <= px < v.width && 0 <= py < n implies (#[trigger] (u.screen)(px, py)).0 == glyph(
                v.cell(px, py),
            ) && (v.cell(px, py) is Some ==> (u.screen)(px, py).1 == key(v.cell(px, py))) by {
            if py == m {
                assert((u.screen)(0 + px, py) == (u.screen)(px, py));
                assert(row[px] == v.cell(px, py));
            }
        }
    }
}

/// Rendering a grid overwrites every one of its positions on the terminal
/// with the character it holds (a blank for an empty cell), each non-empty
/// cell in its own colour, leaves every other position as it was, and ends
/// in the default colour.
pub proof fn law_display_shows_grid(b: BufferView, t: Terminal)
    requires
        b.wf(),
    ensures
        ({
            let u = apply_all(t, frame_ops(b));
            &&& u.pen is None
            &&& forall|x: int, y: int|
                b.in_bounds(x, y) ==> (#[trigger] (u.screen)(x, y)).0 == glyph(b.cell(x, y))
            &&& forall|x: int, y: int|
                b.in_bounds(x, y) ==> (b.cell(x, y) matches Some((ch, c)) ==> #[trigger] (u.screen)(
                    x,
                    y,
                ) == (ch, Some(c)))
            &&& forall|x: int, y: int| !b.in_bounds(x, y) ==> #[trigger] (u.screen)(x, y) == (
            t.screen)(x, y)
        }),
{
    lemma_rows_ops(t, b, b.height);
    let r = rows_ops(b, b.height);
    assert((r + seq![PaintOp::Reset]).drop_last() =~= r);
}

proof fn lemma_last_run_nonempty(row: Seq<Cell>)
    requires
        row.len() > 0,
    ensures
        runs(row).len() > 0,
        runs(row).last().1.len() > 0,
        runs(row).last().0 == key(row.last()),
{
}

fn flush(out: &mut Vec<DrawCommand>, run: &mut String)
    ensures
        old(run)@.len() > 0 ==> ops_of(final(out)@) == ops_of(old(out)@).push(
            PaintOp::Print(old(run)@),
        ),
        old(run)@.len() == 0 ==> final(out)@ == old(out)@,
        final(run)@.len() == 0,
{
    if !run.as_str().is_empty() {
        let mut fresh = String::new();
        std::mem::swap(&mut fresh, run);
        out.push(DrawCommand::Print(fresh));
        assert(ops_of(out@) =~= ops_of(old(out)@).push(PaintOp::Print(old(run)@)));
    }
}

impl Buffer {
    /// The commands that render the buffer in one pass, overwriting every
    /// cell in the terminal: each row is printed from its first column in
    /// runs of one colour, empty cells as blanks in the default colour.
    pub fn display(&self) -> (cmds: Vec<DrawCommand>)
        requires
            self@.wf(),
        ensures
            ops_of(cmds@) == frame_ops(self@),
    {
        let width = self.width();
        let height = self.height();
        let ghost v = self@;
        let mut out: Vec<DrawCommand> = Vec::new();
        for y in 0..height
            invariant
                width == v.width,
                height == v.height,
                v == self@,
                v.wf(),
                ops_of(out@) == rows_ops(v, y as nat),
        {
            let ghost base = ops_of(out@);
            let ghost row = v.row(y as int);
            proof {
                crate::buffer::lemma_row_in_storage(v, y as int);
            }
            out.push(DrawCommand::MoveTo(0, y));
            assert(ops_of(out@) =~= base + seq![PaintOp::MoveTo(0, y as nat)]);
            let ghost start = ops_of(out@);
            let mut current: Option<Color> = None;
            let mut run = String::new();
            for x in 0..width
                invariant
                    width == v.width,
                    height == v.height,
                    y < height,
                    v == self@,
                    v.wf(),
                    row == v.row(y as int),
                    row.len() == width,
                    forall|i: int| 0 <= i < width ==> #[trigger] row[i] == v.cell(i, y as int),
                    x == 0 ==> current is None && run@.len() == 0 && ops_of(out@) == start,
                    x > 0 ==> {
                        let rs = runs(row.take(x as int));
                        &&& rs.len() > 0
                        &&& current == rs.last().0
                        &&& run@ == rs.last().1
                        &&& run@.len() > 0
                        &&& ops_of(out@) == start + runs_ops(rs.drop_last()) + run_prefix(
                            rs.last(),
                            rs.len() == 1,
                        )
                    },
            {
                let ghost prefix = row.take(x as int);
                let ghost rs = runs(prefix);
                let cell = self.get(x, y);
                proof {
                    assert(row.take(x + 1).drop_last() =~= prefix);
                    assert(row[x as int] == v.cell(x as int, y as int));
                    lemma_last_run_nonempty(row.take(x + 1));
                }
                match cell {
                    Some((ch, color)) => {
                        let same = match current {
                            Some(c) => c == color,
                            None => false,
                        };
                        if !same {
                            let ghost before = ops_of(out@);
                            let ghost text = run@;
                            flush(&mut out, &mut run);
                            let ghost mid = out@;
                            out.push(DrawCommand::SetForegroundColor(color));
                            assert(ops_of(out@) =~= ops_of(mid).push(PaintOp::SetForeground(color)));
                            assert(text.len() > 0 ==> ops_of(out@) =~= before + seq![
                                PaintOp::Print(text),
                                PaintOp::SetForeground(color),
                            ]);
                            assert(text.len() == 0 ==> ops_of(out@) =~= before + seq![
                                PaintOp::SetForeground(color),
                            ]);
                            current = Some(color);
                        }
                        push_char(&mut run, ch);
                    },
                    None => {
                        if current.is_some() {
                            let ghost before = ops_of(out@);
                            let ghost text = run@;
                            flush(&mut out, &mut run);
                            let ghost mid = out@;
                            out.push(DrawCommand::ResetColor);
                            assert(ops_of(out@) =~= ops_of(mid).push(PaintOp::Reset));
                            assert(text.len() > 0 ==> ops_of(out@) =~= before + seq![
                                PaintOp::Print(text),
                                PaintOp::Reset,
                            ]);
                            current = None;
                        }
                        push_char(&mut run, ' ');
                    },
                }
                proof {
                    let rs2 = runs(row.take(x + 1));
                    if x > 0 {
                        assert(rs.len() > 0);
                        if rs.last().0 == key(cell) {
                            assert(rs2.drop_last() =~= rs.drop_last());
                        } else {
                            assert(rs2.drop_last() =~= rs);
                            assert(rs2.len() == rs.len() + 1);
                            assert(runs_ops(rs) == runs_ops(rs.drop_last()) + run_prefix(
                                rs.last(),
                                rs.len() == 1,
                            ) + seq![PaintOp::Print(rs.last().1)]);
                            assert(ops_of(out@) =~= start + runs_ops(rs2.drop_last()) + run_prefix(
                                rs2.last(),
                                rs2.len() == 1,
                            ));
                        }
                    } else {
                        assert(rs2.drop_last() =~= Seq::<(Option<Color>, Seq<char>)>::empty());
                        assert(ops_of(out@) =~= start + runs_ops(rs2.drop_last()) + run_prefix(
                            rs2.last(),
                            rs2.len() == 1,
                        ));
                    }
                }
            }
            flush(&mut out, &mut run);
            proof {
                assert(row.take(width as int) =~= row);
                if width > 0 {
                    assert(ops_of(out@) =~= start + row_ops(row));
                } else {
                    assert(row =~= Seq::<Cell>::empty());
                    assert(ops_of(out@) =~= start + row_ops(row));
                }
            }
        }
        out.push(DrawCommand::ResetColor);
        assert(ops_of(out@) =~= frame_ops(v));
        out
    }
}

} // verus!

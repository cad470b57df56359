use vstd::prelude::*;

use crate::color::Color;

verus! {

/// What one cell of a grid holds: a character in a colour, or nothing.
pub type Cell = Option<(char, Color)>;

/// `n`, or 1 where `n` is 0: a grid always owns at least one cell per axis.
pub open spec fn at_least_one(n: nat) -> nat {
    if n == 0 {
        1
    } else {
        n
    }
}

/// The mathematical model of a [`Buffer`]: its size and its cells, row after row.
pub struct BufferView {
    pub width: nat,
    pub height: nat,
    pub cells: Seq<Cell>,
}

impl BufferView {
    /// The storage holds one cell per position of the (at least 1 x 1) grid.
    pub open spec fn wf(self) -> bool {
        &&& self.cells.len() == at_least_one(self.width) * at_least_one(self.height)
        &&& self.width <= usize::MAX
        &&& self.height <= usize::MAX
    }

    pub open spec fn in_bounds(self, x: int, y: int) -> bool {
        0 <= x < self.width && 0 <= y < self.height
    }

    /// Where position (`x`, `y`) is stored.
    pub open spec fn index(self, x: int, y: int) -> int {
        y * self.width + x
    }

    pub open spec fn cell(self, x: int, y: int) -> Cell {
        self.cells[self.index(x, y)]
    }

    /// Row `y`, left to right.
    pub open spec fn row(self, y: int) -> Seq<Cell> {
        self.cells.subrange(y * self.width, y * self.width + self.width)
    }

    /// The grid with position (`x`, `y`) set to `v`.
    pub open spec fn set(self, x: int, y: int, v: Cell) -> BufferView {
        BufferView {
            width: self.width,
            height: self.height,
            cells: self.cells.update(self.index(x, y), v),
        }
    }

    /// The grid with position (`x`, `y`) set to `v` if it is inside, else unchanged.
    pub open spec fn put(self, x: int, y: int, v: Cell) -> BufferView {
        if self.in_bounds(x, y) {
            self.set(x, y, v)
        } else {
            self
        }
    }

    /// The grid after `s` is written from (`x`, `y`) one column per
    /// character, each character that lands outside being dropped.
    pub open spec fn put_str(self, x: int, y: int, s: Seq<char>, color: Color) -> BufferView
        decreases s.len(),
    {
        if s.len() == 0 {
            self
        } else {
            self.put_str(x, y, s.drop_last(), color).put(
                x + s.len() - 1,
                y,
                Some((s.last(), color)),
            )
        }
    }

    /// The same grid with every cell empty.
    pub open spec fn cleared(self) -> BufferView {
        BufferView {
            width: self.width,
            height: self.height,
            cells: Seq::new(self.cells.len(), |i: int| None),
        }
    }
}

/// Every position of a well-formed grid is stored inside its storage, and
/// distinct positions are stored apart.
pub proof fn lemma_index_in_storage(v: BufferView, x: int, y: int)
    requires
        v.wf(),
        v.in_bounds(x, y),
    ensures
        0 <= v.index(x, y) < v.width * v.height,
        v.width * v.height <= v.cells.len(),
        v.width * v.height == v.cells.len() || v.width == 0 || v.height == 0,
{
    let w = v.width as int;
    let h = v.height as int;
    assert(0 <= y * w + x < w * h) by (nonlinear_arith)
        requires
            0 <= x < w,
            0 <= y < h,
    ;
    assert(w * h == at_least_one(v.width) * at_least_one(v.height));
}

/// Every row of a well-formed grid lies inside its storage, and holds the
/// cells of that row from left to right.
pub proof fn lemma_row_in_storage(v: BufferView, y: int)
    requires
        v.wf(),
        0 <= y < v.height,
    ensures
        0 <= y * v.width,
        y * v.width + v.width <= v.cells.len(),
        v.row(y).len() == v.width,
        forall|x: int| 0 <= x < v.width ==> #[trigger] v.row(y)[x] == v.cell(x, y),
{
    let w = v.width as int;
    let h = v.height as int;
    assert(0 <= y * w && y * w + w <= w * h) by (nonlinear_arith)
        requires
            0 <= w,
            0 <= y < h,
    ;
    if w > 0 {
        assert(w * h == at_least_one(v.width) * at_least_one(v.height));
    }
}

/// Distinct positions of a grid are stored in distinct places.
pub proof fn lemma_index_injective(v: BufferView, x1: int, y1: int, x2: int, y2: int)
    requires
        v.in_bounds(x1, y1),
        v.in_bounds(x2, y2),
        v.index(x1, y1) == v.index(x2, y2),
    ensures
        x1 == x2,
        y1 == y2,
{
    let w = v.width as int;
    if y1 < y2 {
        assert(y1 * w + x1 < y2 * w + x2) by (nonlinear_arith)
            requires
                0 <= x1 < w,
                0 <= x2,
                y1 < y2,
        ;
    } else if y2 < y1 {
        assert(y2 * w + x2 < y1 * w + x1) by (nonlinear_arith)
            requires
                0 <= x2 < w,
                0 <= x1,
                y2 < y1,
        ;
    }
}

/// Writing a value at a position keeps the grid's size and well-formedness;
/// read back, the position holds the value if it is inside the grid, and
/// every other position inside the grid holds what it held before.
pub proof fn law_put_then_cell(v: BufferView, x: int, y: int, c: Cell, x2: int, y2: int)
    requires
        v.wf(),
        v.in_bounds(x2, y2),
    ensures
        v.put(x, y, c).width == v.width,
        v.put(x, y, c).height == v.height,
        v.put(x, y, c).wf(),
        v.put(x, y, c).cell(x2, y2) == if x2 == x && y2 == y {
            c
        } else {
            v.cell(x2, y2)
        },
{
    lemma_index_in_storage(v, x2, y2);
    if v.in_bounds(x, y) {
        lemma_index_in_storage(v, x, y);
        if !(x2 == x && y2 == y) {
            if v.index(x, y) == v.index(x2, y2) {
                lemma_index_injective(v, x, y, x2, y2);
            }
        }
    }
}

/// Writing a string keeps the grid's size and well-formedness; afterwards
/// the positions of its line from `x` on show its characters in `color`
/// (those that fall inside the grid), and every other position is unchanged.
pub proof fn law_put_str_cells(v: BufferView, x: int, y: int, s: Seq<char>, color: Color, x2: int, y2: int)
    requires
        v.wf(),
        v.in_bounds(x2, y2),
    ensures
        v.put_str(x, y, s, color).width == v.width,
        v.put_str(x, y, s, color).height == v.height,
        v.put_str(x, y, s, color).wf(),
        v.put_str(x, y, s, color).cell(x2, y2) == if y2 == y && x <= x2 < x + s.len() {
            Some((s[x2 - x], color))
        } else {
            v.cell(x2, y2)
        },
    decreases s.len(),
{
    if s.len() > 0 {
        law_put_str_cells(v, x, y, s.drop_last(), color, x2, y2);
        let before = v.put_str(x, y, s.drop_last(), color);
        law_put_then_cell(before, x + s.len() - 1, y, Some((s.last(), color)), x2, y2);
    }
}

/// After clearing, every position inside the grid is empty.
pub proof fn law_cleared_cell(v: BufferView, x: int, y: int)
    requires
        v.wf(),
        v.in_bounds(x, y),
    ensures
        v.cleared().wf(),
        v.cleared().cell(x, y) is None,
{
    lemma_index_in_storage(v, x, y);
}

/// Simple 1d buffer of cells.
pub struct Buffer {
    width: usize,
    height: usize,
    cells: Vec<Cell>,
}

impl View for Buffer {
    type V = BufferView;

    closed spec fn view(&self) -> BufferView {
        BufferView { width: self.width as nat, height: self.height as nat, cells: self.cells@ }
    }
}

impl Buffer {
    /// A `width` x `height` grid of empty cells.
    pub fn new(width: usize, height: usize) -> (b: Self)
        requires
            at_least_one(width as nat) * at_least_one(height as nat) <= usize::MAX,
        ensures
            b@.width == width,
            b@.height == height,
            b@.wf(),
            b@.cells == Seq::new(
                at_least_one(width as nat) * at_least_one(height as nat),
                |i: int| None::<(char, Color)>,
            ),
    {
        let w: usize = if width == 0 { 1 } else { width };
        let h: usize = if height == 0 { 1 } else { height };
        let n: usize = w * h;
        let mut cells: Vec<Cell> = Vec::new();
        while cells.len() < n
            invariant
                cells.len() <= n,
                forall|i: int| 0 <= i < cells.len() ==> cells@[i] is None,
            decreases n - cells.len(),
        {
            cells.push(None);
        }
        let b = Buffer { width, height, cells };
        assert(b@.cells =~= Seq::new(n as nat, |i: int| None::<(char, Color)>));
        b
    }

    /// The number of columns.
    pub fn width(&self) -> (w: usize)
        ensures
            w == self@.width,
    {
        self.width
    }

    /// The number of rows.
    pub fn height(&self) -> (h: usize)
        ensures
            h == self@.height,
    {
        self.height
    }

    /// What position (`x`, `y`) holds.
    pub fn get(&self, x: usize, y: usize) -> (c: Cell)
        requires
            self@.wf(),
            self@.in_bounds(x as int, y as int),
        ensures
            c == self@.cell(x as int, y as int),
    {
        proof {
            lemma_index_in_storage(self@, x as int, y as int);
            assert(y * self.width + x < self.cells.len());
        }
        self.cells[y * self.width + x]
    }

    /// Empties every cell.
    pub fn clear(&mut self)
        ensures
            final(self)@ == old(self)@.cleared(),
    {
        let n = self.cells.len();
        for i in 0..n
            invariant
                n == self.cells.len(),
                self.width == old(self).width,
                self.height == old(self).height,
                self.cells.len() == old(self).cells.len(),
                forall|j: int| 0 <= j < i ==> self.cells@[j] is None,
        {
            self.cells.set(i, None);
        }
        assert(self@.cells =~= old(self)@.cleared().cells);
    }

    /// Sets a single cell to `char` and `color`. No-op if out of bounds.
    pub fn write_char(&mut self, x: usize, y: usize, ch: char, color: Color)
        requires
            old(self)@.wf(),
        ensures
            final(self)@ == old(self)@.put(x as int, y as int, Some((ch, color))),
            final(self)@.wf(),
    {
        if x < self.width && y < self.height {
            proof {
                lemma_index_in_storage(self@, x as int, y as int);
                assert(y * self.width + x < self.cells.len());
            }
            let i = y * self.width + x;
            self.cells.set(i, Some((ch, color)));
        }
    }

    /// Writes `s` starting at (`x`, `y`), one column per character.
    /// Characters that land out of bounds are dropped.
    pub fn write(&mut self, x: usize, y: usize, s: &str, color: Color)
        requires
            old(self)@.wf(),
            x + s@.len() <= usize::MAX + 1,
        ensures
            final(self)@ == old(self)@.put_str(x as int, y as int, s@, color),
    {
        let n = s.unicode_len();
        for i in 0..n
            invariant
                n == s@.len(),
                x + n <= usize::MAX + 1,
                self@.wf(),
                self@ == old(self)@.put_str(x as int, y as int, s@.take(i as int), color),
        {
            let ch = s.get_char(i);
            self.write_char(x + i, y, ch, color);
            assert(s@.take(i + 1).drop_last() =~= s@.take(i as int));
        }
        assert(s@.take(n as int) =~= s@);
    }

    /// Copies every cell of `other` into this buffer, whose size stays.
    pub fn copy_from(&mut self, other: &Buffer)
        requires
            old(self)@.cells.len() == other@.cells.len(),
        ensures
            final(self)@ == (BufferView {
                width: old(self)@.width,
                height: old(self)@.height,
                cells: other@.cells,
            }),
    {
        let n = self.cells.len();
        for i in 0..n
            invariant
                n == self.cells.len(),
                n == other.cells.len(),
                self.width == old(self).width,
                self.height == old(self).height,
                forall|j: int| 0 <= j < i ==> self.cells@[j] == other.cells@[j],
        {
            self.cells.set(i, other.cells[i]);
        }
        assert(self@.cells =~= other@.cells);
    }
}

} // verus!

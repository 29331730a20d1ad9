use vstd::prelude::*;

use crate::palette::TermColor;

verus! {

/// One grid position: the glyph shown there and the color of that glyph, if any.
#[derive(Clone, Copy, Debug, PartialEq, Eq, Structural)]
pub struct Cell {
    pub ch: char,
    pub color: Option<TermColor>,
}

impl Cell {
    pub open spec fn spec_blank() -> Cell {
        Cell { ch: ' ', color: None }
    }

    /// The cell that fills every position nothing was written to.
    pub fn blank() -> (r: Cell)
        ensures
            r == Cell::spec_blank(),
    {
        Cell { ch: ' ', color: None }
    }
}

/// One write request: column, row and the cell to put there.
pub struct Write {
    pub x: int,
    pub y: int,
    pub cell: Cell,
}

pub open spec fn wr(x: int, y: int, cell: Cell) -> Write {
    Write { x, y, cell }
}

/// Width of a grid model: the common length of its rows.
pub open spec fn width_of(g: Seq<Seq<Cell>>) -> int {
    if g.len() == 0 {
        0
    } else {
        g[0].len() as int
    }
}

/// Every row has the same length, and a grid with rows has columns.
pub open spec fn rectangular(g: Seq<Seq<Cell>>) -> bool {
    &&& forall|r: int| 0 <= r < g.len() ==> #[trigger] g[r].len() == width_of(g)
    &&& g.len() > 0 ==> width_of(g) > 0
}

/// The cell shown at a position: blank outside the grid.
pub open spec fn cell_at(g: Seq<Seq<Cell>>, x: int, y: int) -> Cell {
    if 0 <= y < g.len() && 0 <= x < g[y].len() {
        g[y][x]
    } else {
        Cell::spec_blank()
    }
}

/// A position that a write can reach: not negative, and within what a `usize` counts.
pub open spec fn addressable(x: int, y: int) -> bool {
    0 <= x < usize::MAX && 0 <= y < usize::MAX
}

/// The grid after one write: grown to cover the position (padding with blanks) and
/// holding the cell there. A write at a position that is not addressable changes nothing.
pub open spec fn write_cell(g: Seq<Seq<Cell>>, x: int, y: int, c: Cell) -> Seq<Seq<Cell>> {
    if !addressable(x, y) {
        g
    } else {
        let w = width_of(g);
        let nw = if x + 1 > w { x + 1 } else { w };
        let nh = if y + 1 > g.len() { y + 1 } else { g.len() as int };
        Seq::new(
            nh as nat,
            |r: int|
                Seq::new(
                    nw as nat,
                    |col: int|
                        if r == y && col == x {
                            c
                        } else if r < g.len() && col < w {
                            g[r][col]
                        } else {
                            Cell::spec_blank()
                        },
                ),
        )
    }
}

/// The grid after a sequence of writes, applied in order.
pub open spec fn write_all(g: Seq<Seq<Cell>>, ws: Seq<Write>) -> Seq<Seq<Cell>>
    decreases ws.len(),
{
    if ws.len() == 0 {
        g
    } else {
        let w = ws.last();
        write_cell(write_all(g, ws.drop_last()), w.x, w.y, w.cell)
    }
}

pub proof fn lemma_write_all_push(g: Seq<Seq<Cell>>, ws: Seq<Write>, w: Write)
    ensures
        write_all(g, ws.push(w)) == write_cell(write_all(g, ws), w.x, w.y, w.cell),
{
    assert(ws.push(w).drop_last() =~= ws);
}

pub proof fn lemma_write_all_concat(g: Seq<Seq<Cell>>, a: Seq<Write>, b: Seq<Write>)
    ensures
        write_all(g, a + b) == write_all(write_all(g, a), b),
    decreases b.len(),
{
    if b.len() == 0 {
        assert(a + b =~= a);
    } else {
        assert((a + b).drop_last() =~= a + b.drop_last());
        lemma_write_all_concat(g, a, b.drop_last());
    }
}

pub proof fn lemma_write_cell_rectangular(g: Seq<Seq<Cell>>, x: int, y: int, c: Cell)
    requires
        rectangular(g),
    ensures
        rectangular(write_cell(g, x, y, c)),
{
}

pub proof fn lemma_write_all_rectangular(g: Seq<Seq<Cell>>, ws: Seq<Write>)
    requires
        rectangular(g),
    ensures
        rectangular(write_all(g, ws)),
    decreases ws.len(),
{
    if ws.len() > 0 {
        lemma_write_all_rectangular(g, ws.drop_last());
        let w = ws.last();
        lemma_write_cell_rectangular(write_all(g, ws.drop_last()), w.x, w.y, w.cell);
    }
}

/// What one write does to the cell shown at a position.
pub proof fn lemma_cell_at_write(g: Seq<Seq<Cell>>, x: int, y: int, c: Cell, px: int, py: int)
    requires
        rectangular(g),
    ensures
        cell_at(write_cell(g, x, y, c), px, py) == if addressable(x, y) && px == x && py == y {
            c
        } else {
            cell_at(g, px, py)
        },
{
}

/// The cells of a picture, row by row, with every row as wide as the widest.
pub struct Grid {
    rows: Vec<Vec<Cell>>,
}

impl View for Grid {
    type V = Seq<Seq<Cell>>;

    closed spec fn view(&self) -> Seq<Seq<Cell>> {
        Seq::new(self.rows@.len(), |r: int| self.rows@[r]@)
    }
}

impl Grid {
    pub closed spec fn wf(&self) -> bool {
        rectangular(self@)
    }

    pub fn new() -> (g: Grid)
        ensures
            g.wf(),
            g@ == Seq::<Seq<Cell>>::empty(),
    {
        let g = Grid { rows: Vec::new() };
        assert(g@ =~= Seq::<Seq<Cell>>::empty());
        g
    }

    pub fn height(&self) -> (r: usize)
        ensures
            r == self@.len(),
    {
        self.rows.len()
    }

    /// The cells of row `y`.
    pub fn row(&self, y: usize) -> (r: &Vec<Cell>)
        requires
            y < self@.len(),
        ensures
            r@ == self@[y as int],
    {
        &self.rows[y]
    }

    /// Grows the grid to hold position (x, y), padding with blank cells.
    fn ensure_size(&mut self, x: usize, y: usize)
        requires
            old(self).wf(),
            x < usize::MAX,
            y < usize::MAX,
        ensures
            final(self).wf(),
            final(self)@.len() == if y + 1 > old(self)@.len() {
                y + 1
            } else {
                old(self)@.len() as int
            },
            width_of(final(self)@) == if x + 1 > width_of(old(self)@) {
                x + 1
            } else {
                width_of(old(self)@)
            },
            forall|r: int, c: int|
                0 <= r < final(self)@.len() && 0 <= c < width_of(final(self)@) ==> #[trigger] (final(self)@[r][c]) == if r < old(self)@.len() && c < width_of(old(self)@) {
                    old(self)@[r][c]
                } else {
                    Cell::spec_blank()
                },
    {
        let ghost g0 = self@;
        let w0: usize = if self.rows.len() == 0 {
            0
        } else {
            self.rows[0].len()
        };
        assert(w0 == width_of(g0));
        let nw: usize = if x + 1 > w0 {
            x + 1
        } else {
            w0
        };
        let ghost nh: int = if y + 1 > g0.len() {
            y + 1
        } else {
            g0.len() as int
        };
        // widen the rows already there
        let n0: usize = self.rows.len();
        let mut r: usize = 0;
        while r < n0
            invariant
                n0 == g0.len(),
                self.rows@.len() == n0,
                r <= n0,
                w0 == width_of(g0),
                w0 <= nw,
                rectangular(g0),
                forall|i: int|
                    0 <= i < r ==> (#[trigger] self.rows@[i]@).len() == nw && forall|c: int|
                        0 <= c < nw ==> self.rows@[i]@[c] == if c < w0 {
                            g0[i][c]
                        } else {
                            Cell::spec_blank()
                        },
                forall|i: int| r <= i < n0 ==> #[trigger] self.rows@[i]@ == g0[i],
            decreases n0 - r,
        {
            let mut row: Vec<Cell> = Vec::new();
            std::mem::swap(&mut self.rows[r], &mut row);
            assert(row@ == g0[r as int]);
            let mut c: usize = row.len();
            while c < nw
                invariant
                    w0 <= c <= nw,
                    row@.len() == c,
                    forall|k: int|
                        0 <= k < c ==> #[trigger] row@[k] == if k < w0 {
                            g0[r as int][k]
                        } else {
                            Cell::spec_blank()
                        },
                decreases nw - c,
            {
                row.push(Cell::blank());
                c = c + 1;
            }
            self.rows.set(r, row);
            r = r + 1;
        }
        // add the missing rows
        while self.rows.len() <= y
            invariant
                n0 == g0.len(),
                n0 <= self.rows@.len(),
                self.rows@.len() <= n0 || self.rows@.len() <= y + 1,
                w0 == width_of(g0),
                w0 <= nw,
                nw > 0,
                y < usize::MAX,
                forall|i: int|
                    0 <= i < n0 ==> (#[trigger] self.rows@[i]@).len() == nw && forall|c: int|
                        0 <= c < nw ==> self.rows@[i]@[c] == if c < w0 {
                            g0[i][c]
                        } else {
                            Cell::spec_blank()
                        },
                forall|i: int|
                    n0 <= i < self.rows@.len() ==> (#[trigger] self.rows@[i]@).len() == nw
                        && forall|c: int| 0 <= c < nw ==> self.rows@[i]@[c] == Cell::spec_blank(),
            decreases y + 1 - self.rows@.len(),
        {
            let mut row: Vec<Cell> = Vec::new();
            let mut c: usize = 0;
            while c < nw
                invariant
                    c <= nw,
                    row@.len() == c,
                    forall|k: int| 0 <= k < c ==> #[trigger] row@[k] == Cell::spec_blank(),
                decreases nw - c,
            {
                row.push(Cell::blank());
                c = c + 1;
            }
            self.rows.push(row);
        }
        assert(self@.len() == nh);
        assert(width_of(self@) == nw);
    }

    /// Puts a cell at (x, y); a position that is not addressable is left alone.
    pub fn set(&mut self, x: i128, y: i128, c: Cell)
        requires
            old(self).wf(),
        ensures
            final(self).wf(),
            final(self)@ == write_cell(old(self)@, x as int, y as int, c),
    {
        if x < 0 || y < 0 || x >= usize::MAX as i128 || y >= usize::MAX as i128 {
            return;
        }
        let ghost g0 = self@;
        let ux = x as usize;
        let uy = y as usize;
        self.ensure_size(ux, uy);
        let ghost g1 = self@;
        assert(g1[uy as int].len() == width_of(g1));
        let mut row: Vec<Cell> = Vec::new();
        std::mem::swap(&mut self.rows[uy], &mut row);
        assert(row@ == g1[uy as int]);
        row.set(ux, c);
        self.rows.set(uy, row);
        let ghost g2 = write_cell(g0, x as int, y as int, c);
        assert(self@.len() == g2.len());
        assert forall|r: int| 0 <= r < g2.len() implies #[trigger] self@[r] =~= g2[r] by {
            assert(g1[r].len() == width_of(g1));
        }
        assert(self@ =~= g2);
    }
}

} // verus!

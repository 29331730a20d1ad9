use vstd::prelude::*;

use crate::grid::{
    lemma_write_all_concat, lemma_write_all_push, write_all, wr, Cell, Grid, Write,
};

verus! {

/// A glyph without color.
pub open spec fn glyph(ch: char) -> Cell {
    Cell { ch, color: None }
}

pub fn plain(ch: char) -> (c: Cell)
    ensures
        c == glyph(ch),
{
    Cell { ch, color: None }
}

/// Coordinates that cell arithmetic on them can never overflow.
pub open spec fn in_range(v: int) -> bool {
    -0x1_0000_0000_0000 <= v <= 0x1_0000_0000_0000
}

/// Values that sums of a few of them keep far from the bounds of an `i64`.
pub open spec fn in_reach(v: int) -> bool {
    -0x1000_0000_0000_0000 <= v <= 0x1000_0000_0000_0000
}

/// Values whose difference stays within `in_reach`.
pub open spec fn in_span(v: int) -> bool {
    -0x0400_0000_0000_0000 <= v <= 0x0400_0000_0000_0000
}

/// `n` cells to the right of (x, y), starting there.
pub open spec fn hrun(x: int, y: int, n: int, c: Cell) -> Seq<Write> {
    Seq::new(if n > 0 { n as nat } else { 0 }, |i: int| wr(x + i, y, c))
}

/// `n` cells below (x, y), starting there.
pub open spec fn vrun(x: int, y: int, n: int, c: Cell) -> Seq<Write> {
    Seq::new(if n > 0 { n as nat } else { 0 }, |i: int| wr(x, y + i, c))
}

/// The cells of row `y` between two columns, both included, in either order.
pub open spec fn hline_writes(x0: int, x1: int, y: int, c: Cell) -> Seq<Write> {
    if x0 <= x1 {
        hrun(x0, y, x1 - x0 + 1, c)
    } else {
        hrun(x1, y, x0 - x1 + 1, c)
    }
}

/// The cells of column `x` between two rows, both included, in either order.
pub open spec fn vline_writes(x: int, y0: int, y1: int, c: Cell) -> Seq<Write> {
    if y0 <= y1 {
        vrun(x, y0, y1 - y0 + 1, c)
    } else {
        vrun(x, y1, y0 - y1 + 1, c)
    }
}

/// Writes a run of cells, across (`down` false) or down (`down` true).
fn paint_run(grid: &mut Grid, x: i64, y: i64, n: i64, down: bool, c: Cell)
    requires
        old(grid).wf(),
        in_reach(x as int),
        in_reach(y as int),
        in_reach(n as int),
    ensures
        final(grid).wf(),
        final(grid)@ == write_all(
            old(grid)@,
            if down {
                vrun(x as int, y as int, n as int, c)
            } else {
                hrun(x as int, y as int, n as int, c)
            },
        ),
{
    let ghost g0 = grid@;
    let ghost ws = if down {
        vrun(x as int, y as int, n as int, c)
    } else {
        hrun(x as int, y as int, n as int, c)
    };
    let mut i: i64 = 0;
    assert(ws.take(0) =~= Seq::<Write>::empty());
    while i < n
        invariant
            grid.wf(),
            0 <= i,
            i <= (if n > 0 { n } else { 0 }),
            in_reach(x as int),
            in_reach(y as int),
            in_reach(n as int),
            ws == (if down {
                vrun(x as int, y as int, n as int, c)
            } else {
                hrun(x as int, y as int, n as int, c)
            }),
            grid@ == write_all(g0, ws.take(i as int)),
        decreases n - i,
    {
        if down {
            grid.set(x as i128, (y + i) as i128, c);
        } else {
            grid.set((x + i) as i128, y as i128, c);
        }
        proof {
            assert(ws.take(i + 1) =~= ws.take(i as int).push(ws[i as int]));
            lemma_write_all_push(g0, ws.take(i as int), ws[i as int]);
        }
        i = i + 1;
    }
    assert(ws.len() == if n > 0 { n as int } else { 0 });
    assert(ws.len() == i);
    assert(ws.take(i as int) =~= ws);
}

/// Fills the cells of row `y` between two columns, both included.
pub fn draw_hline(grid: &mut Grid, x0: i64, x1: i64, y: i64, c: Cell)
    requires
        old(grid).wf(),
        in_span(x0 as int),
        in_span(x1 as int),
        in_span(y as int),
    ensures
        final(grid).wf(),
        final(grid)@ == write_all(old(grid)@, hline_writes(x0 as int, x1 as int, y as int, c)),
{
    let a = if x0 <= x1 {
        x0
    } else {
        x1
    };
    let b = if x0 <= x1 {
        x1
    } else {
        x0
    };
    paint_run(grid, a, y, b - a + 1, false, c);
}

/// Fills the cells of column `x` between two rows, both included.
pub fn draw_vline(grid: &mut Grid, x: i64, y0: i64, y1: i64, c: Cell)
    requires
        old(grid).wf(),
        in_span(x as int),
        in_span(y0 as int),
        in_span(y1 as int),
    ensures
        final(grid).wf(),
        final(grid)@ == write_all(old(grid)@, vline_writes(x as int, y0 as int, y1 as int, c)),
{
    let a = if y0 <= y1 {
        y0
    } else {
        y1
    };
    let b = if y0 <= y1 {
        y1
    } else {
        y0
    };
    paint_run(grid, x, a, b - a + 1, true, c);
}

/// A solid `w` by `h` block with its top left cell at (x, y), row after row.
pub open spec fn block_writes(x: int, y: int, w: int, h: int, c: Cell) -> Seq<Write>
    decreases h,
{
    if h <= 0 {
        Seq::empty()
    } else {
        block_writes(x, y, w, h - 1, c) + hrun(x, y + h - 1, w, c)
    }
}

/// Fills a `w` by `h` block of cells whose top left cell is (x, y).
pub fn rect_fill(grid: &mut Grid, x: i64, y: i64, w: i64, h: i64, c: Cell)
    requires
        old(grid).wf(),
        in_range(x as int),
        in_range(y as int),
        0 <= w <= 0x1_0000_0000_0000,
        0 <= h <= 0x1_0000_0000_0000,
    ensures
        final(grid).wf(),
        final(grid)@ == write_all(old(grid)@, block_writes(x as int, y as int, w as int, h as int, c)),
{
    let ghost g0 = grid@;
    let mut yy: i64 = 0;
    while yy < h
        invariant
            grid.wf(),
            0 <= yy <= h,
            in_range(x as int),
            in_range(y as int),
            0 <= w <= 0x1_0000_0000_0000,
            h <= 0x1_0000_0000_0000,
            grid@ == write_all(g0, block_writes(x as int, y as int, w as int, yy as int, c)),
        decreases h - yy,
    {
        paint_run(grid, x, y + yy, w, false, c);
        proof {
            lemma_write_all_concat(
                g0,
                block_writes(x as int, y as int, w as int, yy as int, c),
                hrun(x as int, y + yy, w as int, c),
            );
        }
        yy = yy + 1;
    }
}

/// The outline of a `w` by `h` rectangle at (x, y): its four corners, then the top and
/// bottom edges when it is wider than two cells, then the left and right edges when it is
/// taller than two. Nothing when either side is not positive.
pub open spec fn outline_writes(x: int, y: int, w: int, h: int) -> Seq<Write> {
    if w <= 0 || h <= 0 {
        Seq::empty()
    } else {
        seq![
            wr(x, y, glyph('+')),
            wr(x + w - 1, y, glyph('+')),
            wr(x, y + h - 1, glyph('+')),
            wr(x + w - 1, y + h - 1, glyph('+')),
        ] + (if w > 2 {
            hline_writes(x + 1, x + w - 2, y, glyph('-')) + hline_writes(
                x + 1,
                x + w - 2,
                y + h - 1,
                glyph('-'),
            )
        } else {
            Seq::empty()
        }) + (if h > 2 {
            vline_writes(x, y + 1, y + h - 2, glyph('|')) + vline_writes(
                x + w - 1,
                y + 1,
                y + h - 2,
                glyph('|'),
            )
        } else {
            Seq::empty()
        })
    }
}

/// Draws the outline of a `w` by `h` rectangle whose top left cell is (x, y).
pub fn rect_outline(grid: &mut Grid, x: i64, y: i64, w: i64, h: i64)
    requires
        old(grid).wf(),
        in_range(x as int),
        in_range(y as int),
        0 <= w <= 0x1_0000_0000_0000,
        0 <= h <= 0x1_0000_0000_0000,
    ensures
        final(grid).wf(),
        final(grid)@ == write_all(old(grid)@, outline_writes(x as int, y as int, w as int, h as int)),
{
    let ghost g0 = grid@;
    if w <= 0 || h <= 0 {
        return;
    }
    let ghost corners = seq![
        wr(x as int, y as int, glyph('+')),
        wr(x + w - 1, y as int, glyph('+')),
        wr(x as int, y + h - 1, glyph('+')),
        wr(x + w - 1, y + h - 1, glyph('+')),
    ];
    let p = plain('+');
    grid.set(x as i128, y as i128, p);
    grid.set((x + w - 1) as i128, y as i128, p);
    grid.set(x as i128, (y + h - 1) as i128, p);
    grid.set((x + w - 1) as i128, (y + h - 1) as i128, p);
    proof {
        let e = Seq::<Write>::empty();
        lemma_write_all_push(g0, e, corners[0]);
        lemma_write_all_push(g0, e.push(corners[0]), corners[1]);
        lemma_write_all_push(g0, e.push(corners[0]).push(corners[1]), corners[2]);
        lemma_write_all_push(g0, e.push(corners[0]).push(corners[1]).push(corners[2]), corners[3]);
        assert(e.push(corners[0]).push(corners[1]).push(corners[2]).push(corners[3]) =~= corners);
        assert(grid@ == write_all(g0, corners));
    }
    let ghost g1 = grid@;
    let ghost hs = if w > 2 {
        hline_writes(x + 1, x + w - 2, y as int, glyph('-')) + hline_writes(
            x + 1,
            x + w - 2,
            y + h - 1,
            glyph('-'),
        )
    } else {
        Seq::empty()
    };
    if w > 2 {
        draw_hline(grid, x + 1, x + w - 2, y, plain('-'));
        draw_hline(grid, x + 1, x + w - 2, y + h - 1, plain('-'));
        proof {
            lemma_write_all_concat(
                g1,
                hline_writes(x + 1, x + w - 2, y as int, glyph('-')),
                hline_writes(x + 1, x + w - 2, y + h - 1, glyph('-')),
            );
        }
    }
    assert(grid@ == write_all(g1, hs));
    let ghost g2 = grid@;
    let ghost vs = if h > 2 {
        vline_writes(x as int, y + 1, y + h - 2, glyph('|')) + vline_writes(
            x + w - 1,
            y + 1,
            y + h - 2,
            glyph('|'),
        )
    } else {
        Seq::empty()
    };
    if h > 2 {
        draw_vline(grid, x, y + 1, y + h - 2, plain('|'));
        draw_vline(grid, x + w - 1, y + 1, y + h - 2, plain('|'));
        proof {
            lemma_write_all_concat(
                g2,
                vline_writes(x as int, y + 1, y + h - 2, glyph('|')),
                vline_writes(x + w - 1, y + 1, y + h - 2, glyph('|')),
            );
        }
    }
    assert(grid@ == write_all(g2, vs));
    proof {
        lemma_write_all_concat(g0, corners, hs);
        lemma_write_all_concat(g0, corners + hs, vs);
    }
}

} // verus!

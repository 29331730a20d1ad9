use vstd::prelude::*;

use crate::ellipse::{fill_row, fill_rows, oval_fill_writes, oval_fills, span_reaches};
use crate::geometry::{abs, ceil_div, floor_div, Point};
use crate::grid::{
    addressable, cell_at, lemma_cell_at_write, wr, lemma_write_all_rectangular, rectangular, write_all,
    Cell, Write,
};
use crate::line::{
    bres_nth, lemma_bres_nth_inv, lemma_inv_done, lemma_inv_step, max,
    segment_cells, seg_steps,
};
use crate::raster::{block_writes, glyph, hline_writes, hrun, outline_writes, vline_writes};
use crate::render::{lemma_trim_end, rendered_line_cells, trim_end};
use crate::writer::{cell_rect, fill_cell, rect_writes, rendered, ASCIIWriter, StyleAttr};

verus! {

/// Whether a write lands on position (px, py).
pub open spec fn lands(w: Write, px: int, py: int) -> bool {
    w.x == px && w.y == py
}

/// Writes that all miss a position leave the cell shown there as it was.
pub proof fn lemma_untouched(g: Seq<Seq<Cell>>, ws: Seq<Write>, px: int, py: int)
    requires
        rectangular(g),
        forall|k: int| 0 <= k < ws.len() ==> !lands(#[trigger] ws[k], px, py),
    ensures
        cell_at(write_all(g, ws), px, py) == cell_at(g, px, py),
    decreases ws.len(),
{
    if ws.len() > 0 {
        let w = ws.last();
        assert(!lands(ws[ws.len() - 1], px, py));
        assert forall|k: int| 0 <= k < ws.drop_last().len() implies !lands(
            #[trigger] ws.drop_last()[k],
            px,
            py,
        ) by {
            assert(ws.drop_last()[k] == ws[k]);
        }
        lemma_untouched(g, ws.drop_last(), px, py);
        lemma_write_all_rectangular(g, ws.drop_last());
        lemma_cell_at_write(write_all(g, ws.drop_last()), w.x, w.y, w.cell, px, py);
    }
}

/// Writes that land on an addressable position, all with the same cell, leave that cell
/// there.
pub proof fn lemma_landed(g: Seq<Seq<Cell>>, ws: Seq<Write>, px: int, py: int, c: Cell)
    requires
        rectangular(g),
        addressable(px, py),
        exists|k: int| 0 <= k < ws.len() && lands(#[trigger] ws[k], px, py),
        forall|k: int| 0 <= k < ws.len() && lands(#[trigger] ws[k], px, py) ==> ws[k].cell == c,
    ensures
        cell_at(write_all(g, ws), px, py) == c,
    decreases ws.len(),
{
    let w = ws.last();
    let rest = ws.drop_last();
    lemma_write_all_rectangular(g, rest);
    lemma_cell_at_write(write_all(g, rest), w.x, w.y, w.cell, px, py);
    if !lands(w, px, py) {
        let k = choose|k: int| 0 <= k < ws.len() && lands(#[trigger] ws[k], px, py);
        assert(rest[k] == ws[k]);
        assert forall|j: int| 0 <= j < rest.len() && lands(#[trigger] rest[j], px, py) implies rest[j].cell
            == c by {
            assert(rest[j] == ws[j]);
        }
        lemma_landed(g, rest, px, py, c);
    }
}

/// A rectangle that rounds to no width or no height leaves the grid as it was: neither
/// fill nor outline is written.
pub proof fn law_empty_rect_draws_nothing(
    g: Seq<Seq<Cell>>,
    xy: Point,
    size: Point,
    look: StyleAttr,
    terminal: bool,
    colors: bool,
)
    requires
        look.font_size >= 1,
        cell_rect(xy, size, look.font_size as int).2 <= 0 || cell_rect(
            xy,
            size,
            look.font_size as int,
        ).3 <= 0,
    ensures
        write_all(g, rect_writes(xy, size, look, terminal, colors)) == g,
{
    let (x, y, w, h) = cell_rect(xy, size, look.font_size as int);
    lemma_block_empty(x, y, w, h, glyph('█'));
    let c = fill_cell('█', look.fill_color, colors);
    lemma_block_empty(x, y, w, h, c);
    assert(rect_writes(xy, size, look, terminal, colors) =~= Seq::<Write>::empty());
}

proof fn lemma_block_empty(x: int, y: int, w: int, h: int, c: Cell)
    requires
        w <= 0 || h <= 0,
    ensures
        block_writes(x, y, w, h, c) =~= Seq::<Write>::empty(),
    decreases h,
{
    if h > 0 {
        lemma_block_empty(x, y, w, h - 1, c);
        assert(hrun(x, y + h - 1, w, c) =~= Seq::<Write>::empty());
    }
}

/// The glyph the outline of a `w` by `h` rectangle at (x, y) leaves at (px, py): `+` at
/// its four corners, `-` along the top and bottom edges between them, `|` along the left
/// and right edges between them, and what was there before anywhere else.
pub open spec fn outline_glyph_at(
    g: Seq<Seq<Cell>>,
    x: int,
    y: int,
    w: int,
    h: int,
    px: int,
    py: int,
) -> Cell {
    let on_col = px == x || px == x + w - 1;
    let on_row = py == y || py == y + h - 1;
    let in_cols = x < px < x + w - 1;
    let in_rows = y < py < y + h - 1;
    if on_col && on_row {
        glyph('+')
    } else if on_row && in_cols {
        glyph('-')
    } else if on_col && in_rows {
        glyph('|')
    } else {
        cell_at(g, px, py)
    }
}

/// A rectangle more than two cells wide and high gets exactly four corner glyphs and
/// straight edges of the full length between them; nothing else changes.
pub proof fn law_rect_outline_shape(
    g: Seq<Seq<Cell>>,
    x: int,
    y: int,
    w: int,
    h: int,
    px: int,
    py: int,
)
    requires
        rectangular(g),
        w > 2,
        h > 2,
        addressable(px, py),
    ensures
        cell_at(write_all(g, outline_writes(x, y, w, h)), px, py) == outline_glyph_at(
            g,
            x,
            y,
            w,
            h,
            px,
            py,
        ),
{
    let ws = outline_writes(x, y, w, h);
    let corners = seq![
        wr(x, y, glyph('+')),
        wr(x + w - 1, y, glyph('+')),
        wr(x, y + h - 1, glyph('+')),
        wr(x + w - 1, y + h - 1, glyph('+')),
    ];
    let top = hline_writes(x + 1, x + w - 2, y, glyph('-'));
    let bot = hline_writes(x + 1, x + w - 2, y + h - 1, glyph('-'));
    let left = vline_writes(x, y + 1, y + h - 2, glyph('|'));
    let right = vline_writes(x + w - 1, y + 1, y + h - 2, glyph('|'));
    assert(ws =~= corners + (top + bot) + (left + right));
    assert(ws.len() == 4 + 2 * (w - 2) + 2 * (h - 2));
    assert forall|k: int| 0 <= k < ws.len() implies #[trigger] ws[k] == if k < 4 {
        corners[k]
    } else if k < 4 + (w - 2) {
        wr(x + 1 + (k - 4), y, glyph('-'))
    } else if k < 4 + 2 * (w - 2) {
        wr(x + 1 + (k - 4 - (w - 2)), y + h - 1, glyph('-'))
    } else if k < 4 + 2 * (w - 2) + (h - 2) {
        wr(x, y + 1 + (k - 4 - 2 * (w - 2)), glyph('|'))
    } else {
        wr(x + w - 1, y + 1 + (k - 4 - 2 * (w - 2) - (h - 2)), glyph('|'))
    } by {}
    let want = outline_glyph_at(g, x, y, w, h, px, py);
    let on_col = px == x || px == x + w - 1;
    let on_row = py == y || py == y + h - 1;
    let in_cols = x < px < x + w - 1;
    let in_rows = y < py < y + h - 1;
    if on_col && on_row {
        let k = if px == x && py == y {
            0
        } else if py == y {
            1
        } else if px == x {
            2
        } else {
            3
        };
        assert(lands(ws[k], px, py));
        lemma_landed(g, ws, px, py, want);
    } else if on_row && in_cols {
        let k = if py == y {
            4 + (px - x - 1)
        } else {
            4 + (w - 2) + (px - x - 1)
        };
        assert(lands(ws[k], px, py));
        lemma_landed(g, ws, px, py, want);
    } else if on_col && in_rows {
        let k = if px == x {
            4 + 2 * (w - 2) + (py - y - 1)
        } else {
            4 + 2 * (w - 2) + (h - 2) + (py - y - 1)
        };
        assert(lands(ws[k], px, py));
        lemma_landed(g, ws, px, py, want);
    } else {
        lemma_untouched(g, ws, px, py);
    }
}

/// The fill of an ellipse whose centre falls on a cell corner of the grid (`cx = c * s`,
/// `cy = d * s`) is symmetric: a covered cell's mirror images across the centre column and
/// across the centre row are covered too.
pub proof fn law_oval_fill_symmetric(
    c: int,
    d: int,
    w: int,
    h: int,
    s: int,
    ix: int,
    iy: int,
)
    requires
        s >= 1,
        oval_fills(c * s, d * s, w, h, s, ix, iy),
    ensures
        oval_fills(c * s, d * s, w, h, s, 2 * c - ix, iy),
        oval_fills(c * s, d * s, w, h, s, ix, 2 * d - iy),
{
    let cx = c * s;
    let cy = d * s;
    let dy = iy * s - cy;
    let jx = 2 * c - ix;
    let jy = 2 * d - iy;
    assert(cx - (jx + 1) * s == (ix - 1) * s - cx) by (nonlinear_arith)
        requires
            cx == c * s,
            jx == 2 * c - ix,
    ;
    assert((jx - 1) * s - cx == cx - (ix + 1) * s) by (nonlinear_arith)
        requires
            cx == c * s,
            jx == 2 * c - ix,
    ;
    assert(jy * s - cy == -dy) by (nonlinear_arith)
        requires
            cy == d * s,
            jy == 2 * d - iy,
            dy == iy * s - cy,
    ;
    assert((-dy) * (-dy) == dy * dy) by (nonlinear_arith);
}

/// A segment between any two cells is a connected run of `max(|dx|, |dy|) + 1` cells from
/// the first to the last, each a step of at most one cell along each axis from the one
/// before, and never the same cell twice in a row.
pub proof fn law_segment_connected(x0: int, y0: int, x1: int, y1: int)
    ensures
        segment_cells(x0, y0, x1, y1).len() == max(abs(x1 - x0), abs(y1 - y0)) + 1,
        segment_cells(x0, y0, x1, y1)[0] == (x0, y0),
        segment_cells(x0, y0, x1, y1).last() == (x1, y1),
        forall|k: int|
            0 < k < segment_cells(x0, y0, x1, y1).len() ==> {
                let p = #[trigger] segment_cells(x0, y0, x1, y1)[k];
                let q = segment_cells(x0, y0, x1, y1)[k - 1];
                &&& abs(p.0 - q.0) <= 1
                &&& abs(p.1 - q.1) <= 1
                &&& p != q
            },
{
    let m = seg_steps(x0, y0, x1, y1);
    lemma_bres_nth_inv(x0, y0, x1, y1, m as nat);
    lemma_inv_done(x0, y0, x1, y1, bres_nth(x0, y0, x1, y1, m as nat), m);
    assert forall|k: int| 0 < k < segment_cells(x0, y0, x1, y1).len() implies {
        let p = #[trigger] segment_cells(x0, y0, x1, y1)[k];
        let q = segment_cells(x0, y0, x1, y1)[k - 1];
        &&& abs(p.0 - q.0) <= 1
        &&& abs(p.1 - q.1) <= 1
        &&& p != q
    } by {
        lemma_bres_nth_inv(x0, y0, x1, y1, (k - 1) as nat);
        lemma_inv_step(x0, y0, x1, y1, bres_nth(x0, y0, x1, y1, (k - 1) as nat), k - 1);
    }
}

/// No line of the output ends in a blank cell, in either mode: each row is cut after its
/// last glyph that is not blank, and all that is cut is blank.
pub proof fn law_no_trailing_blanks(row: Seq<Cell>)
    ensures
        rendered_line_cells(row) == row.take(trim_end(row) as int),
        trim_end(row) == 0 || row[trim_end(row) - 1].ch != ' ',
        forall|i: int| trim_end(row) <= i < row.len() ==> #[trigger] row[i].ch == ' ',
{
    lemma_trim_end(row);
}

/// The output is a function of the writer's cells and mode alone: two writers that agree
/// on them (such as one writer finalized twice, which finalizing does not change) give the
/// same text.
pub proof fn law_finalize_repeatable(a: &ASCIIWriter, b: &ASCIIWriter)
    requires
        a.cells() == b.cells(),
        a.terminal() == b.terminal(),
        a.colors() == b.colors(),
    ensures
        rendered(a.cells(), a.terminal(), a.colors()) == rendered(
            b.cells(),
            b.terminal(),
            b.colors(),
        ),
{
}

/// Whether some write of a sequence lands on (px, py).
pub open spec fn covers(ws: Seq<Write>, px: int, py: int) -> bool {
    exists|k: int| 0 <= k < ws.len() && lands(#[trigger] ws[k], px, py)
}

proof fn lemma_covers_concat(a: Seq<Write>, b: Seq<Write>, px: int, py: int)
    ensures
        covers(a + b, px, py) <==> (covers(a, px, py) || covers(b, px, py)),
{
    if covers(a + b, px, py) {
        let k = choose|k: int| 0 <= k < (a + b).len() && lands(#[trigger] (a + b)[k], px, py);
        if k < a.len() {
            assert(lands(a[k], px, py));
        } else {
            assert(lands(b[k - a.len()], px, py));
        }
    }
    if covers(a, px, py) {
        let k = choose|k: int| 0 <= k < a.len() && lands(#[trigger] a[k], px, py);
        assert(lands((a + b)[k], px, py));
    }
    if covers(b, px, py) {
        let k = choose|k: int| 0 <= k < b.len() && lands(#[trigger] b[k], px, py);
        assert(lands((a + b)[a.len() + k], px, py));
    }
}

proof fn lemma_fill_row_covers(
    cx: int,
    cy: int,
    w: int,
    h: int,
    s: int,
    lo: int,
    n: int,
    iy: int,
    c: Cell,
    px: int,
    py: int,
)
    ensures
        covers(fill_row(cx, cy, w, h, s, lo, n, iy, c), px, py) <==> (py == iy && lo <= px < lo + n
            && oval_fills(cx, cy, w, h, s, px, py)),
    decreases n,
{
    if n > 0 {
        let prev = fill_row(cx, cy, w, h, s, lo, n - 1, iy, c);
        let last = if oval_fills(cx, cy, w, h, s, lo + n - 1, iy) {
            seq![wr(lo + n - 1, iy, c)]
        } else {
            Seq::empty()
        };
        lemma_fill_row_covers(cx, cy, w, h, s, lo, n - 1, iy, c, px, py);
        lemma_covers_concat(prev, last, px, py);
        if oval_fills(cx, cy, w, h, s, lo + n - 1, iy) && px == lo + n - 1 && py == iy {
            assert(lands(last[0], px, py));
        }
    } else {
        assert(!covers(Seq::<Write>::empty(), px, py));
    }
}

proof fn lemma_fill_rows_covers(
    cx: int,
    cy: int,
    w: int,
    h: int,
    s: int,
    lo: int,
    n: int,
    top: int,
    m: int,
    c: Cell,
    px: int,
    py: int,
)
    ensures
        covers(fill_rows(cx, cy, w, h, s, lo, n, top, m, c), px, py) <==> (top <= py < top + m && lo
            <= px < lo + n && oval_fills(cx, cy, w, h, s, px, py)),
    decreases m,
{
    if m > 0 {
        lemma_fill_rows_covers(cx, cy, w, h, s, lo, n, top, m - 1, c, px, py);
        lemma_fill_row_covers(cx, cy, w, h, s, lo, n, top + m - 1, c, px, py);
        lemma_covers_concat(
            fill_rows(cx, cy, w, h, s, lo, n, top, m - 1, c),
            fill_row(cx, cy, w, h, s, lo, n, top + m - 1, c),
            px,
            py,
        );
    } else {
        assert(!covers(Seq::<Write>::empty(), px, py));
    }
}

proof fn lemma_floor_div_le(p: int, q: int, k: int)
    requires
        q >= 1,
        p < (k + 1) * q,
    ensures
        floor_div(p, q) <= k,
{
    if p >= 0 {
        vstd::arithmetic::div_mod::lemma_fundamental_div_mod(p, q);
        vstd::arithmetic::div_mod::lemma_mod_bound(p, q);
        let t = p / q;
        assert(t <= k) by (nonlinear_arith)
            requires
                p == q * t + p % q,
                0 <= p % q,
                p < (k + 1) * q,
                q >= 1,
        ;
    } else {
        let u = -p + q - 1;
        vstd::arithmetic::div_mod::lemma_fundamental_div_mod(u, q);
        vstd::arithmetic::div_mod::lemma_mod_bound(u, q);
        let t = u / q;
        assert(t >= -k) by (nonlinear_arith)
            requires
                u == q * t + u % q,
                u % q < q,
                u == -p + q - 1,
                p < (k + 1) * q,
                q >= 1,
        ;
    }
}

proof fn lemma_ceil_div_ge(p: int, q: int, k: int)
    requires
        q >= 1,
        p > (k - 1) * q,
    ensures
        ceil_div(p, q) >= k,
{
    assert(-p < (-k + 1) * q) by (nonlinear_arith)
        requires
            p > (k - 1) * q,
    ;
    lemma_floor_div_le(-p, q, -k);
}

proof fn lemma_reaches_within(d: int, w: int, h: int, dy: int)
    requires
        w > 0,
        h > 0,
        span_reaches(d, w, h, dy),
    ensures
        2 * d < w,
{
    if d >= 0 {
        assert(0 <= dy * dy) by (nonlinear_arith);
        assert(2 * d < w) by (nonlinear_arith)
            requires
                d >= 0,
                w > 0,
                h > 0,
                0 <= dy * dy,
                4 * (h * h) * (d * d) < (w * w) * (h * h - 4 * (dy * dy)),
        ;
    }
}

/// Every cell the fill predicate covers lies within the rows and columns that the fill
/// scans.
proof fn lemma_fill_in_scan(cx: int, cy: int, w: int, h: int, s: int, px: int, py: int)
    requires
        w > 0,
        h > 0,
        s >= 1,
        oval_fills(cx, cy, w, h, s, px, py),
    ensures
        floor_div(2 * cy - h, 2 * s) <= py <= ceil_div(2 * cy + h, 2 * s),
        floor_div(2 * cx - w, 2 * s) <= px <= ceil_div(2 * cx + w, 2 * s),
{
    let dy = py * s - cy;
    assert(-h <= 2 * dy <= h) by (nonlinear_arith)
        requires
            4 * (dy * dy) <= h * h,
            h > 0,
    ;
    assert(2 * cy - h < (py + 1) * (2 * s)) by (nonlinear_arith)
        requires
            dy == py * s - cy,
            -h <= 2 * dy,
            s >= 1,
    ;
    lemma_floor_div_le(2 * cy - h, 2 * s, py);
    assert(2 * cy + h > (py - 1) * (2 * s)) by (nonlinear_arith)
        requires
            dy == py * s - cy,
            2 * dy <= h,
            s >= 1,
    ;
    lemma_ceil_div_ge(2 * cy + h, 2 * s, py);
    lemma_reaches_within(cx - (px + 1) * s, w, h, dy);
    lemma_reaches_within((px - 1) * s - cx, w, h, dy);
    assert(2 * cx - w < (px + 1) * (2 * s)) by (nonlinear_arith)
        requires
            2 * (cx - (px + 1) * s) < w,
    ;
    lemma_floor_div_le(2 * cx - w, 2 * s, px);
    assert(2 * cx + w > (px - 1) * (2 * s)) by (nonlinear_arith)
        requires
            2 * ((px - 1) * s - cx) < w,
    ;
    lemma_ceil_div_ge(2 * cx + w, 2 * s, px);
}

/// The cells an ellipse fill writes are exactly those the fill predicate covers.
pub proof fn law_oval_fill_cells(cx: int, cy: int, w: int, h: int, s: int, c: Cell, px: int, py: int)
    requires
        w > 0,
        h > 0,
        s >= 1,
    ensures
        covers(oval_fill_writes(cx, cy, w, h, s, c), px, py) <==> oval_fills(cx, cy, w, h, s, px, py),
{
    let top = floor_div(2 * cy - h, 2 * s);
    let bottom = ceil_div(2 * cy + h, 2 * s);
    let lo = floor_div(2 * cx - w, 2 * s);
    let hi = ceil_div(2 * cx + w, 2 * s);
    lemma_fill_rows_covers(cx, cy, w, h, s, lo, hi - lo + 1, top, bottom - top + 1, c, px, py);
    if oval_fills(cx, cy, w, h, s, px, py) {
        lemma_fill_in_scan(cx, cy, w, h, s, px, py);
    }
}

/// The cells written by the fill of an ellipse whose centre falls on a cell corner of the
/// grid (`cx = c * s`, `cy = d * s`) form a set symmetric about the centre column and the
/// centre row.
pub proof fn law_oval_fill_writes_symmetric(
    c: int,
    d: int,
    w: int,
    h: int,
    s: int,
    cell: Cell,
    px: int,
    py: int,
)
    requires
        w > 0,
        h > 0,
        s >= 1,
        covers(oval_fill_writes(c * s, d * s, w, h, s, cell), px, py),
    ensures
        covers(oval_fill_writes(c * s, d * s, w, h, s, cell), 2 * c - px, py),
        covers(oval_fill_writes(c * s, d * s, w, h, s, cell), px, 2 * d - py),
{
    law_oval_fill_cells(c * s, d * s, w, h, s, cell, px, py);
    law_oval_fill_symmetric(c, d, w, h, s, px, py);
    law_oval_fill_cells(c * s, d * s, w, h, s, cell, 2 * c - px, py);
    law_oval_fill_cells(c * s, d * s, w, h, s, cell, px, 2 * d - py);
}

proof fn lemma_floor_div_brackets(p: int, q: int)
    requires
        q >= 1,
    ensures
        floor_div(p, q) * q <= p < (floor_div(p, q) + 1) * q,
{
    if p >= 0 {
        vstd::arithmetic::div_mod::lemma_fundamental_div_mod(p, q);
        vstd::arithmetic::div_mod::lemma_mod_bound(p, q);
        let t = p / q;
        assert(t * q <= p < (t + 1) * q) by (nonlinear_arith)
            requires
                p == q * t + p % q,
                0 <= p % q < q,
        ;
    } else {
        let u = -p + q - 1;
        vstd::arithmetic::div_mod::lemma_fundamental_div_mod(u, q);
        vstd::arithmetic::div_mod::lemma_mod_bound(u, q);
        let t = u / q;
        assert((-t) * q <= p < (-t + 1) * q) by (nonlinear_arith)
            requires
                u == q * t + u % q,
                0 <= u % q < q,
                u == -p + q - 1,
        ;
    }
}

proof fn lemma_reaches_mono(d1: int, d2: int, w: int, h: int, dy1: int, dy2: int)
    requires
        d1 <= d2,
        dy1 * dy1 <= dy2 * dy2,
        span_reaches(d2, w, h, dy2),
    ensures
        span_reaches(d1, w, h, dy1),
{
    if d1 >= 0 {
        assert(4 * (h * h) * (d1 * d1) < (w * w) * (h * h - 4 * (dy1 * dy1))) by (nonlinear_arith)
            requires
                0 <= d1 <= d2,
                dy1 * dy1 <= dy2 * dy2,
                4 * (h * h) * (d2 * d2) < (w * w) * (h * h - 4 * (dy2 * dy2)),
        ;
    }
}

/// Mirrored across the centre column, a cell of the fill lands within one cell of a cell
/// of the fill in the same row, wherever the centre falls.
pub proof fn law_oval_fill_mirror_column(
    cx: int,
    cy: int,
    w: int,
    h: int,
    s: int,
    cell: Cell,
    px: int,
    py: int,
)
    requires
        w > 0,
        h > 0,
        s >= 1,
        covers(oval_fill_writes(cx, cy, w, h, s, cell), px, py),
    ensures
        exists|j: int|
            covers(oval_fill_writes(cx, cy, w, h, s, cell), j, py) && -s <= #[trigger] (j * s) - (2 * cx
                - px * s) <= s,
{
    law_oval_fill_cells(cx, cy, w, h, s, cell, px, py);
    let q = 2 * cx - px * s;
    let dy = py * s - cy;
    let j = -floor_div(-q, s);
    lemma_floor_div_brackets(-q, s);
    assert(j * s >= q && (j - 1) * s < q) by (nonlinear_arith)
        requires
            j == -floor_div(-q, s),
            floor_div(-q, s) * s <= -q < (floor_div(-q, s) + 1) * s,
    ;
    // the left edge holds at j: it lies no further out than the right edge of px
    assert(cx - (j + 1) * s <= (px - 1) * s - cx) by (nonlinear_arith)
        requires
            j * s >= q,
            q == 2 * cx - px * s,
    ;
    lemma_reaches_mono(cx - (j + 1) * s, (px - 1) * s - cx, w, h, dy, dy);
    // the right edge of j - 1 lies no further out than the left edge of px
    assert((j - 2) * s - cx <= cx - (px + 1) * s) by (nonlinear_arith)
        requires
            (j - 1) * s < q,
            q == 2 * cx - px * s,
    ;
    lemma_reaches_mono((j - 2) * s - cx, cx - (px + 1) * s, w, h, dy, dy);
    if span_reaches((j - 1) * s - cx, w, h, dy) {
        law_oval_fill_cells(cx, cy, w, h, s, cell, j, py);
        assert(-s <= j * s - q <= s) by (nonlinear_arith)
            requires
                j * s >= q,
                (j - 1) * s < q,
        ;
    } else {
        // the two edges of j - 1 and j sum to less than nothing: one of them holds
        assert((cx - j * s) + ((j - 1) * s - cx) == -s) by (nonlinear_arith);
        assert(span_reaches(cx - j * s, w, h, dy));
        assert(cx - ((j - 1) + 1) * s == cx - j * s) by (nonlinear_arith);
        law_oval_fill_cells(cx, cy, w, h, s, cell, j - 1, py);
        assert(-s <= (j - 1) * s - q <= s) by (nonlinear_arith)
            requires
                j * s >= q,
                (j - 1) * s < q,
        ;
    }
}

/// Mirrored across the centre row, a cell of the fill lands within one cell of a cell of
/// the fill in the same column, wherever the centre falls.
pub proof fn law_oval_fill_mirror_row(
    cx: int,
    cy: int,
    w: int,
    h: int,
    s: int,
    cell: Cell,
    px: int,
    py: int,
)
    requires
        w > 0,
        h > 0,
        s >= 1,
        covers(oval_fill_writes(cx, cy, w, h, s, cell), px, py),
    ensures
        exists|j: int|
            covers(oval_fill_writes(cx, cy, w, h, s, cell), px, j) && -s <= #[trigger] (j * s) - (2 * cy
                - py * s) <= s,
{
    law_oval_fill_cells(cx, cy, w, h, s, cell, px, py);
    let q = 2 * cy - py * s;
    let dy = py * s - cy;
    let f = floor_div(q, s);
    lemma_floor_div_brackets(q, s);
    // the row nearest the mirror image on the side of py
    let j = if q >= py * s { f } else { f + 1 };
    assert(-s <= j * s - q <= s && (j * s - cy) * (j * s - cy) <= dy * dy) by (nonlinear_arith)
        requires
            f * s <= q < (f + 1) * s,
            j == if q >= py * s { f } else { f + 1 },
            q == 2 * cy - py * s,
            dy == py * s - cy,
            s >= 1,
    ;
    let dj = j * s - cy;
    assert(4 * (dj * dj) <= h * h);
    lemma_reaches_mono(cx - (px + 1) * s, cx - (px + 1) * s, w, h, dj, dy);
    lemma_reaches_mono((px - 1) * s - cx, (px - 1) * s - cx, w, h, dj, dy);
    law_oval_fill_cells(cx, cy, w, h, s, cell, px, j);
}

} // verus!

use vstd::prelude::*;

use crate::geometry::{ceil_div, floor_div, floor_div_exec};
use crate::grid::{lemma_write_all_concat, lemma_write_all_push, write_all, wr, Cell, Grid, Write};
use crate::raster::{glyph, in_range, in_reach, plain};

verus! {

/// Cells written two at a time: for each of `n` columns from `lo`, one in row `ya`, then
/// one in row `yb`.
pub open spec fn pairs_h(lo: int, n: int, ya: int, yb: int, c: Cell) -> Seq<Write>
    decreases n,
{
    if n <= 0 {
        Seq::empty()
    } else {
        pairs_h(lo, n - 1, ya, yb, c) + seq![wr(lo + n - 1, ya, c), wr(lo + n - 1, yb, c)]
    }
}

/// Cells written two at a time: for each of `n` rows from `lo`, one in column `xa`, then
/// one in column `xb`.
pub open spec fn pairs_v(lo: int, n: int, xa: int, xb: int, c: Cell) -> Seq<Write>
    decreases n,
{
    if n <= 0 {
        Seq::empty()
    } else {
        pairs_v(lo, n - 1, xa, xb, c) + seq![wr(xa, lo + n - 1, c), wr(xb, lo + n - 1, c)]
    }
}

/// The outline of an ellipse `w` cells wide and `h` high centred on cell (cx, cy): a
/// single `o` when either is at most 2; else underscores along the top and bottom rows,
/// bars down the sides, and corners, slanted when both are over 3 and `+` otherwise.
pub open spec fn oval_outline_writes(cx: int, cy: int, w: int, h: int) -> Seq<Write> {
    if w <= 2 || h <= 2 {
        seq![wr(cx, cy, glyph('o'))]
    } else {
        let left = cx - w / 2;
        let right = cx + w / 2;
        let top = cy - h / 2;
        let bottom = cy + h / 2;
        let big = w > 3 && h > 3;
        pairs_h(left + 1, right - left - 1, top, bottom, glyph('_')) + pairs_v(
            top + 1,
            bottom - top - 1,
            left,
            right,
            glyph('|'),
        ) + seq![
            wr(left, top, glyph(if big { '/' } else { '+' })),
            wr(right, top, glyph(if big { '\\' } else { '+' })),
            wr(left, bottom, glyph(if big { '\\' } else { '+' })),
            wr(right, bottom, glyph(if big { '/' } else { '+' })),
        ]
    }
}

fn paint_pairs(grid: &mut Grid, lo: i64, n: i64, a: i64, b: i64, across: bool, c: Cell)
    requires
        old(grid).wf(),
        in_reach(lo as int),
        in_reach(a as int),
        in_reach(b as int),
        0 <= n <= 0x4_0000_0000_0000,
    ensures
        final(grid).wf(),
        final(grid)@ == write_all(
            old(grid)@,
            if across {
                pairs_h(lo as int, n as int, a as int, b as int, c)
            } else {
                pairs_v(lo as int, n as int, a as int, b as int, c)
            },
        ),
{
    let ghost g0 = grid@;
    let mut i: i64 = 0;
    while i < n
        invariant
            grid.wf(),
            0 <= i <= n,
            in_reach(lo as int),
            in_reach(a as int),
            in_reach(b as int),
            n <= 0x4_0000_0000_0000,
            grid@ == write_all(
                g0,
                if across {
                    pairs_h(lo as int, i as int, a as int, b as int, c)
                } else {
                    pairs_v(lo as int, i as int, a as int, b as int, c)
                },
            ),
        decreases n - i,
    {
        let ghost prev = if across {
            pairs_h(lo as int, i as int, a as int, b as int, c)
        } else {
            pairs_v(lo as int, i as int, a as int, b as int, c)
        };
        let ghost w1 = if across {
            wr(lo + i, a as int, c)
        } else {
            wr(a as int, lo + i, c)
        };
        let ghost w2 = if across {
            wr(lo + i, b as int, c)
        } else {
            wr(b as int, lo + i, c)
        };
        if across {
            grid.set((lo + i) as i128, a as i128, c);
            grid.set((lo + i) as i128, b as i128, c);
        } else {
            grid.set(a as i128, (lo + i) as i128, c);
            grid.set(b as i128, (lo + i) as i128, c);
        }
        proof {
            lemma_write_all_push(g0, prev, w1);
            lemma_write_all_push(g0, prev.push(w1), w2);
            assert(prev.push(w1).push(w2) =~= prev + seq![w1, w2]);
        }
        i = i + 1;
    }
}

/// Draws the outline of an ellipse `w` cells wide and `h` high around cell (cx, cy).
pub fn ellipse_outline(grid: &mut Grid, cx: i64, cy: i64, w: i64, h: i64)
    requires
        old(grid).wf(),
        in_range(cx as int),
        in_range(cy as int),
        0 <= w <= 0x1_0000_0000_0000,
        0 <= h <= 0x1_0000_0000_0000,
    ensures
        final(grid).wf(),
        final(grid)@ == write_all(old(grid)@, oval_outline_writes(cx as int, cy as int, w as int, h as int)),
{
    let ghost g0 = grid@;
    if w <= 2 || h <= 2 {
        grid.set(cx as i128, cy as i128, plain('o'));
        proof {
            lemma_write_all_push(g0, Seq::empty(), wr(cx as int, cy as int, glyph('o')));
            assert(Seq::<Write>::empty().push(wr(cx as int, cy as int, glyph('o'))) =~= seq![
                wr(cx as int, cy as int, glyph('o')),
            ]);
        }
        return;
    }
    let left = cx - w / 2;
    let right = cx + w / 2;
    let top = cy - h / 2;
    let bottom = cy + h / 2;
    paint_pairs(grid, left + 1, right - left - 1, top, bottom, true, plain('_'));
    let ghost g1 = grid@;
    paint_pairs(grid, top + 1, bottom - top - 1, left, right, false, plain('|'));
    let ghost g2 = grid@;
    let big = w > 3 && h > 3;
    let c1 = plain(if big { '/' } else { '+' });
    let c2 = plain(if big { '\\' } else { '+' });
    grid.set(left as i128, top as i128, c1);
    grid.set(right as i128, top as i128, c2);
    grid.set(left as i128, bottom as i128, c2);
    grid.set(right as i128, bottom as i128, c1);
    proof {
        let hs = pairs_h(left + 1, right - left - 1, top as int, bottom as int, glyph('_'));
        let vs = pairs_v(top + 1, bottom - top - 1, left as int, right as int, glyph('|'));
        let corners = seq![
            wr(left as int, top as int, c1),
            wr(right as int, top as int, c2),
            wr(left as int, bottom as int, c2),
            wr(right as int, bottom as int, c1),
        ];
        let e = Seq::<Write>::empty();
        lemma_write_all_push(g2, e, corners[0]);
        lemma_write_all_push(g2, e.push(corners[0]), corners[1]);
        lemma_write_all_push(g2, e.push(corners[0]).push(corners[1]), corners[2]);
        lemma_write_all_push(g2, e.push(corners[0]).push(corners[1]).push(corners[2]), corners[3]);
        assert(e.push(corners[0]).push(corners[1]).push(corners[2]).push(corners[3]) =~= corners);
        lemma_write_all_concat(g0, hs, vs);
        lemma_write_all_concat(g0, hs + vs, corners);
    }
}

/// Whether the fill of a row reaches past an edge that lies `d` beyond the cell border:
/// `d` is under the half-span `w/2 * sqrt(1 - (2 dy / h)^2)` of the row, compared squared.
pub open spec fn span_reaches(d: int, w: int, h: int, dy: int) -> bool {
    d < 0 || 4 * (h * h) * (d * d) < (w * w) * (h * h - 4 * (dy * dy))
}

/// Whether the fill of the ellipse of size (w, h) centred on (cx, cy) covers cell (ix, iy)
/// at scale `s`: the row lies within the half-height, and the cell lies between the left
/// edge of the row's span rounded down and its right edge rounded up.
pub open spec fn oval_fills(cx: int, cy: int, w: int, h: int, s: int, ix: int, iy: int) -> bool {
    let dy = iy * s - cy;
    &&& 4 * (dy * dy) <= h * h
    &&& span_reaches(cx - (ix + 1) * s, w, h, dy)
    &&& span_reaches((ix - 1) * s - cx, w, h, dy)
}

/// The fill written in row `iy`, scanning `n` columns from `lo` left to right.
pub open spec fn fill_row(
    cx: int,
    cy: int,
    w: int,
    h: int,
    s: int,
    lo: int,
    n: int,
    iy: int,
    c: Cell,
) -> Seq<Write>
    decreases n,
{
    if n <= 0 {
        Seq::empty()
    } else {
        fill_row(cx, cy, w, h, s, lo, n - 1, iy, c) + if oval_fills(cx, cy, w, h, s, lo + n - 1, iy) {
            seq![wr(lo + n - 1, iy, c)]
        } else {
            Seq::empty()
        }
    }
}

/// The fill written in `m` rows from `top` down, each scanned over `n` columns from `lo`.
pub open spec fn fill_rows(
    cx: int,
    cy: int,
    w: int,
    h: int,
    s: int,
    lo: int,
    n: int,
    top: int,
    m: int,
    c: Cell,
) -> Seq<Write>
    decreases m,
{
    if m <= 0 {
        Seq::empty()
    } else {
        fill_rows(cx, cy, w, h, s, lo, n, top, m - 1, c) + fill_row(cx, cy, w, h, s, lo, n, top + m - 1, c)
    }
}

/// The fill of the ellipse of size (w, h) centred on (cx, cy) at scale `s`: rows from the
/// top edge rounded down to the bottom edge rounded up, columns likewise, each cell that
/// `oval_fills` covers. Nothing when a side is not positive.
pub open spec fn oval_fill_writes(cx: int, cy: int, w: int, h: int, s: int, c: Cell) -> Seq<Write> {
    if w <= 0 || h <= 0 {
        Seq::empty()
    } else {
        let top = floor_div(2 * cy - h, 2 * s);
        let bottom = ceil_div(2 * cy + h, 2 * s);
        let lo = floor_div(2 * cx - w, 2 * s);
        let hi = ceil_div(2 * cx + w, 2 * s);
        fill_rows(cx, cy, w, h, s, lo, hi - lo + 1, top, bottom - top + 1, c)
    }
}

proof fn lemma_floor_div_bound(p: int, q: int)
    requires
        1 <= q,
    ensures
        -(if p < 0 { -p } else { p }) - 1 <= floor_div(p, q) <= (if p < 0 { -p } else { p }),
{
    if p >= 0 {
        vstd::arithmetic::div_mod::lemma_div_is_ordered_by_denominator(p, 1, q);
        vstd::arithmetic::div_mod::lemma_div_pos_is_pos(p, q);
    } else {
        let t = (-p + q - 1) / q;
        vstd::arithmetic::div_mod::lemma_div_pos_is_pos(-p + q - 1, q);
        vstd::arithmetic::div_mod::lemma_fundamental_div_mod(-p + q - 1, q);
        vstd::arithmetic::div_mod::lemma_mod_bound(-p + q - 1, q);
        assert(t <= -p + 1) by (nonlinear_arith)
            requires
                -p + q - 1 == q * t + (-p + q - 1) % q,
                0 <= (-p + q - 1) % q < q,
                q >= 1,
                -p >= 1,
        ;
    }
}

/// Whether the span reaches past `d`, computed exactly.
fn reaches(d: i128, w: i128, h: i128, dy: i128) -> (r: bool)
    requires
        -0x100_0000_0000_0000_0000_0000_0000 <= d <= 0x100_0000_0000_0000_0000_0000_0000,
        0 < w < 0x8000_0000,
        0 < h < 0x8000_0000,
        4 * (dy * dy) <= h * h,
    ensures
        r == span_reaches(d as int, w as int, h as int, dy as int),
{
    if d < 0 {
        return true;
    }
    assert(0 <= dy * dy) by (nonlinear_arith);
    if d >= w {
        assert(4 * (h * h) * (d * d) >= (w * w) * (h * h - 4 * (dy * dy))) by (nonlinear_arith)
            requires
                d >= w > 0,
                h > 0,
                0 <= dy * dy,
        ;
        return false;
    }
    assert(h * h < 0x4000_0000_0000_0000) by (nonlinear_arith)
        requires
            0 < h < 0x8000_0000,
    ;
    assert(d * d < 0x4000_0000_0000_0000) by (nonlinear_arith)
        requires
            0 <= d < w < 0x8000_0000,
    ;
    assert(w * w < 0x4000_0000_0000_0000) by (nonlinear_arith)
        requires
            0 < w < 0x8000_0000,
    ;
    let hh: i128 = h * h;
    let dd: i128 = d * d;
    let ww: i128 = w * w;
    let rest: i128 = hh - 4 * (dy * dy);
    assert(4 * hh * dd < 0x4000_0000_0000_0000_0000_0000_0000_0000) by (nonlinear_arith)
        requires
            0 <= hh < 0x4000_0000_0000_0000,
            0 <= dd < 0x4000_0000_0000_0000,
    ;
    assert(ww * rest <= 0x1000_0000_0000_0000_0000_0000_0000_0000) by (nonlinear_arith)
        requires
            0 <= ww < 0x4000_0000_0000_0000,
            0 <= rest <= hh < 0x4000_0000_0000_0000,
    ;
    4 * hh * dd < ww * rest
}

/// Whether the fill covers cell (ix, iy), computed exactly.
fn fills_cell(cx: i128, cy: i128, w: i128, h: i128, s: i128, ix: i128, iy: i128) -> (r: bool)
    requires
        -0x1_0000_0000 < cx < 0x1_0000_0000,
        -0x1_0000_0000 < cy < 0x1_0000_0000,
        0 < w < 0x8000_0000,
        0 < h < 0x8000_0000,
        1 <= s <= 0x2_0000_0000_0000_0000,
        -0x10_0000_0000 <= ix <= 0x10_0000_0000,
        -0x10_0000_0000 <= iy <= 0x10_0000_0000,
    ensures
        r == oval_fills(cx as int, cy as int, w as int, h as int, s as int, ix as int, iy as int),
{
    assert(-0x20_0000_0000_0000_0000_0000_0000 <= iy * s <= 0x20_0000_0000_0000_0000_0000_0000)
        by (nonlinear_arith)
        requires
            1 <= s <= 0x2_0000_0000_0000_0000,
            -0x10_0000_0000 <= iy <= 0x10_0000_0000,
    ;
    assert(-0x40_0000_0000_0000_0000_0000_0000 <= (ix + 1) * s <= 0x40_0000_0000_0000_0000_0000_0000)
        by (nonlinear_arith)
        requires
            1 <= s <= 0x2_0000_0000_0000_0000,
            -0x10_0000_0000 <= ix <= 0x10_0000_0000,
    ;
    assert(-0x40_0000_0000_0000_0000_0000_0000 <= (ix - 1) * s <= 0x40_0000_0000_0000_0000_0000_0000)
        by (nonlinear_arith)
        requires
            1 <= s <= 0x2_0000_0000_0000_0000,
            -0x10_0000_0000 <= ix <= 0x10_0000_0000,
    ;
    let dy: i128 = iy * s - cy;
    let ady: i128 = if dy < 0 {
        -dy
    } else {
        dy
    };
    if 2 * ady > h {
        assert(4 * (dy * dy) > h * h) by (nonlinear_arith)
            requires
                2 * ady > h > 0,
                ady == dy || ady == -dy,
        ;
        return false;
    }
    assert(4 * (dy * dy) <= h * h) by (nonlinear_arith)
        requires
            0 <= 2 * ady <= h,
            ady == dy || ady == -dy,
    ;
    let left = cx - (ix + 1) * s;
    let right = (ix - 1) * s - cx;
    reaches(left, w, h, dy) && reaches(right, w, h, dy)
}

/// Fills the ellipse of size (w, h) drawing units centred on (cx, cy), at `s` units per
/// cell, with cell `c`.
pub fn ellipse_fill(grid: &mut Grid, cx: i32, cy: i32, w: i32, h: i32, s: usize, c: Cell)
    requires
        old(grid).wf(),
        s >= 1,
    ensures
        final(grid).wf(),
        final(grid)@ == write_all(
            old(grid)@,
            oval_fill_writes(cx as int, cy as int, w as int, h as int, s as int, c),
        ),
{
    let ghost g0 = grid@;
    if w <= 0 || h <= 0 {
        return;
    }
    let xc = cx as i128;
    let yc = cy as i128;
    let ww = w as i128;
    let hh = h as i128;
    let sc = s as i128;
    proof {
        lemma_floor_div_bound(2 * cy - h, 2 * s);
        lemma_floor_div_bound(-(2 * cy + h), 2 * s);
        lemma_floor_div_bound(2 * cx - w, 2 * s);
        lemma_floor_div_bound(-(2 * cx + w), 2 * s);
    }
    let top = floor_div_exec(2 * yc - hh, 2 * sc);
    let bottom = -floor_div_exec(-(2 * yc + hh), 2 * sc);
    let lo = floor_div_exec(2 * xc - ww, 2 * sc);
    let hi = -floor_div_exec(-(2 * xc + ww), 2 * sc);
    let n = hi - lo + 1;
    let m = bottom - top + 1;
    let ghost ci = cx as int;
    let ghost cj = cy as int;
    let ghost wi = w as int;
    let ghost hi_ = h as int;
    let ghost si = s as int;
    let mut r: i128 = 0;
    while r < m
        invariant
            grid.wf(),
            0 <= r,
            r <= (if m > 0 { m } else { 0 }),
            -0x8_0000_0000 <= top <= 0x8_0000_0000,
            -0x8_0000_0000 <= bottom <= 0x8_0000_0000,
            -0x8_0000_0000 <= lo <= 0x8_0000_0000,
            -0x8_0000_0000 <= hi <= 0x8_0000_0000,
            n == hi - lo + 1,
            m == bottom - top + 1,
            xc == cx,
            yc == cy,
            ww == w,
            hh == h,
            sc == s,
            ci == cx,
            cj == cy,
            wi == w,
            hi_ == h,
            si == s,
            0 < w,
            0 < h,
            1 <= s,
            grid@ == write_all(g0, fill_rows(ci, cj, wi, hi_, si, lo as int, n as int, top as int, r as int, c)),
        decreases m - r,
    {
        let iy = top + r;
        let ghost before = grid@;
        let mut k: i128 = 0;
        while k < n
            invariant
                grid.wf(),
                0 <= k,
                k <= (if n > 0 { n } else { 0 }),
                -0x8_0000_0000 <= lo <= 0x8_0000_0000,
                -0x8_0000_0000 <= hi <= 0x8_0000_0000,
                -0x10_0000_0000 <= iy <= 0x10_0000_0000,
                n == hi - lo + 1,
                xc == cx,
                yc == cy,
                ww == w,
                hh == h,
                sc == s,
                ci == cx,
                cj == cy,
                wi == w,
                hi_ == h,
                si == s,
                0 < w,
                0 < h,
                1 <= s,
                grid@ == write_all(before, fill_row(ci, cj, wi, hi_, si, lo as int, k as int, iy as int, c)),
            decreases n - k,
        {
            let ix = lo + k;
            let ghost prev = fill_row(ci, cj, wi, hi_, si, lo as int, k as int, iy as int, c);
            assert(fill_row(ci, cj, wi, hi_, si, lo as int, k + 1, iy as int, c) == prev + if oval_fills(
                ci,
                cj,
                wi,
                hi_,
                si,
                ix as int,
                iy as int,
            ) {
                seq![wr(ix as int, iy as int, c)]
            } else {
                Seq::empty()
            });
            if fills_cell(xc, yc, ww, hh, sc, ix, iy) {
                grid.set(ix, iy, c);
                proof {
                    lemma_write_all_push(before, prev, wr(ix as int, iy as int, c));
                    assert(prev.push(wr(ix as int, iy as int, c)) =~= prev + seq![wr(ix as int, iy as int, c)]);
                }
            } else {
                assert(prev + Seq::<Write>::empty() =~= prev);
            }
            k = k + 1;
        }
        proof {
            lemma_write_all_concat(
                g0,
                fill_rows(ci, cj, wi, hi_, si, lo as int, n as int, top as int, r as int, c),
                fill_row(ci, cj, wi, hi_, si, lo as int, n as int, iy as int, c),
            );
        }
        r = r + 1;
    }
}

} // verus!

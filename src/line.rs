use vstd::prelude::*;

use crate::geometry::abs;
use crate::raster::in_range;
use crate::grid::{lemma_write_all_push, write_all, wr, Cell, Grid, Write};

verus! {

/// Where Bresenham's stepping stands: the current cell and the error term.
pub struct Step {
    pub x: int,
    pub y: int,
    pub err: int,
}

pub open spec fn max(a: int, b: int) -> int {
    if a >= b {
        a
    } else {
        b
    }
}

pub open spec fn sign_to(a: int, b: int) -> int {
    if a < b {
        1
    } else {
        -1
    }
}

/// The state before the first step from (x0, y0) to (x1, y1).
pub open spec fn bres_start(x0: int, y0: int, x1: int, y1: int) -> Step {
    Step { x: x0, y: y0, err: abs(x1 - x0) - abs(y1 - y0) }
}

/// One step of Bresenham's algorithm: x moves when twice the error reaches `-|dy|`, y moves
/// when it is at most `|dx|`, each toward the end point.
pub open spec fn bres_step(s: Step, x0: int, y0: int, x1: int, y1: int) -> Step {
    let dx = abs(x1 - x0);
    let dy = -abs(y1 - y0);
    let e2 = 2 * s.err;
    let (x, err) = if e2 >= dy {
        (s.x + sign_to(x0, x1), s.err + dy)
    } else {
        (s.x, s.err)
    };
    let (y, err) = if e2 <= dx {
        (s.y + sign_to(y0, y1), err + dx)
    } else {
        (s.y, err)
    };
    Step { x, y, err }
}

/// The state after `k` steps.
pub open spec fn bres_nth(x0: int, y0: int, x1: int, y1: int, k: nat) -> Step
    decreases k,
{
    if k == 0 {
        bres_start(x0, y0, x1, y1)
    } else {
        bres_step(bres_nth(x0, y0, x1, y1, (k - 1) as nat), x0, y0, x1, y1)
    }
}

/// Number of steps from one end of a segment to the other.
pub open spec fn seg_steps(x0: int, y0: int, x1: int, y1: int) -> int {
    max(abs(x1 - x0), abs(y1 - y0))
}

/// The cells of the segment from (x0, y0) to (x1, y1), from the first to the last.
pub open spec fn segment_cells(x0: int, y0: int, x1: int, y1: int) -> Seq<(int, int)> {
    Seq::new(
        (seg_steps(x0, y0, x1, y1) + 1) as nat,
        |k: int| (bres_nth(x0, y0, x1, y1, k as nat).x, bres_nth(x0, y0, x1, y1, k as nat).y),
    )
}

pub open spec fn segment_writes(x0: int, y0: int, x1: int, y1: int, c: Cell) -> Seq<Write> {
    Seq::new(
        (seg_steps(x0, y0, x1, y1) + 1) as nat,
        |k: int| wr(bres_nth(x0, y0, x1, y1, k as nat).x, bres_nth(x0, y0, x1, y1, k as nat).y, c),
    )
}

/// How far a state has come along each axis, and what holds of its error term.
pub open spec fn bres_inv(x0: int, y0: int, x1: int, y1: int, s: Step, k: int) -> bool {
    let a = abs(x1 - x0);
    let b = abs(y1 - y0);
    let m = max(a, b);
    let i = if x0 < x1 { s.x - x0 } else { x0 - s.x };
    let j = if y0 < y1 { s.y - y0 } else { y0 - s.y };
    &&& 0 <= i <= a
    &&& 0 <= j <= b
    &&& 0 <= k <= m
    &&& s.err == a - b + j * a - i * b
    &&& -m <= 2 * (s.err - a + b) <= m
    &&& (a >= b ==> i == k)
    &&& (a < b ==> j == k)
}

pub proof fn lemma_inv_done(x0: int, y0: int, x1: int, y1: int, s: Step, k: int)
    requires
        bres_inv(x0, y0, x1, y1, s, k),
    ensures
        (s.x == x1 && s.y == y1) <==> k == seg_steps(x0, y0, x1, y1),
{
    let a = abs(x1 - x0);
    let b = abs(y1 - y0);
    let i = if x0 < x1 { s.x - x0 } else { x0 - s.x };
    let j = if y0 < y1 { s.y - y0 } else { y0 - s.y };
    let m = max(a, b);
    if a >= b && i == a && a > 0 {
        assert(j == b) by (nonlinear_arith)
            requires
                a > 0,
                0 <= j <= b,
                -a <= 2 * (j * a - a * b) <= a,
        ;
    }
    if a < b && j == b {
        assert(i == a) by (nonlinear_arith)
            requires
                b > 0,
                0 <= i <= a,
                -b <= 2 * (b * a - i * b) <= b,
        ;
    }
}

pub proof fn lemma_inv_step(x0: int, y0: int, x1: int, y1: int, s: Step, k: int)
    requires
        bres_inv(x0, y0, x1, y1, s, k),
        k < seg_steps(x0, y0, x1, y1),
    ensures
        bres_inv(x0, y0, x1, y1, bres_step(s, x0, y0, x1, y1), k + 1),
        abs(bres_step(s, x0, y0, x1, y1).x - s.x) <= 1,
        abs(bres_step(s, x0, y0, x1, y1).y - s.y) <= 1,
        bres_step(s, x0, y0, x1, y1).x != s.x || bres_step(s, x0, y0, x1, y1).y != s.y,
{
    let a = abs(x1 - x0);
    let b = abs(y1 - y0);
    let i = if x0 < x1 { s.x - x0 } else { x0 - s.x };
    let j = if y0 < y1 { s.y - y0 } else { y0 - s.y };
    let e2 = 2 * s.err;
    let xs = e2 >= -b;
    let ys = e2 <= a;
    let i2 = if xs { i + 1 } else { i };
    let j2 = if ys { j + 1 } else { j };
    assert((j + 1) * a == j * a + a) by (nonlinear_arith);
    assert((i + 1) * b == i * b + b) by (nonlinear_arith);
    if a >= b {
        // the x steps every time, and y never passes its end
        assert(xs);
        if ys && j == b {
            assert(j * a - i * b >= b * a - a * b) by (nonlinear_arith)
                requires
                    j == b,
                    i < a,
                    b >= 0,
                    a >= 0,
            ;
            assert(false) by (nonlinear_arith)
                requires
                    j == b,
                    0 <= i < a,
                    b >= 0,
                    a >= b,
                    2 * (j * a - i * b) <= 2 * b - a,
            ;
        }
    } else {
        assert(ys);
        if xs && i == a {
            assert(false) by (nonlinear_arith)
                requires
                    i == a,
                    0 <= j < b,
                    a >= 0,
                    b > a,
                    2 * (j * a - i * b) >= a - 2 * b + 0,
                    2 * (j * a - i * b) >= b - 2 * a,
            ;
        }
    }
}

pub proof fn lemma_bres_nth_inv(x0: int, y0: int, x1: int, y1: int, k: nat)
    requires
        k <= seg_steps(x0, y0, x1, y1),
    ensures
        bres_inv(x0, y0, x1, y1, bres_nth(x0, y0, x1, y1, k), k as int),
    decreases k,
{
    if k > 0 {
        lemma_bres_nth_inv(x0, y0, x1, y1, (k - 1) as nat);
        lemma_inv_step(x0, y0, x1, y1, bres_nth(x0, y0, x1, y1, (k - 1) as nat), k - 1);
        assert(bres_nth(x0, y0, x1, y1, k) == bres_step(
            bres_nth(x0, y0, x1, y1, (k - 1) as nat),
            x0,
            y0,
            x1,
            y1,
        ));
    } else {
        let a = abs(x1 - x0);
        let b = abs(y1 - y0);
        assert(0 * a == 0 && 0 * b == 0) by (nonlinear_arith);
    }
}

/// Walks the cells from (x0, y0) to (x1, y1) by Bresenham's algorithm and writes `c` in
/// each of them.
pub fn draw_line_segment(grid: &mut Grid, x0: i64, y0: i64, x1: i64, y1: i64, c: Cell)
    requires
        old(grid).wf(),
        in_range(x0 as int),
        in_range(y0 as int),
        in_range(x1 as int),
        in_range(y1 as int),
    ensures
        final(grid).wf(),
        final(grid)@ == write_all(
            old(grid)@,
            segment_writes(x0 as int, y0 as int, x1 as int, y1 as int, c),
        ),
{
    let ghost g0 = grid@;
    let ghost ws = segment_writes(x0 as int, y0 as int, x1 as int, y1 as int, c);
    let dx: i64 = if x1 >= x0 {
        x1 - x0
    } else {
        x0 - x1
    };
    let sx: i64 = if x0 < x1 {
        1
    } else {
        -1
    };
    let dy: i64 = if y1 >= y0 {
        y0 - y1
    } else {
        y1 - y0
    };
    let sy: i64 = if y0 < y1 {
        1
    } else {
        -1
    };
    let mut err: i64 = dx + dy;
    let mut x: i64 = x0;
    let mut y: i64 = y0;
    let ghost mut k: int = 0;
    proof {
        lemma_bres_nth_inv(x0 as int, y0 as int, x1 as int, y1 as int, 0);
        assert(ws.take(0) =~= Seq::<Write>::empty());
    }
    loop
        invariant_except_break
            grid@ == write_all(g0, ws.take(k)),
        invariant
            grid.wf(),
            in_range(x0 as int),
            in_range(y0 as int),
            in_range(x1 as int),
            in_range(y1 as int),
            dx == abs(x1 - x0),
            dy == -abs(y1 - y0),
            sx == sign_to(x0 as int, x1 as int),
            sy == sign_to(y0 as int, y1 as int),
            ws == segment_writes(x0 as int, y0 as int, x1 as int, y1 as int, c),
            0 <= k <= seg_steps(x0 as int, y0 as int, x1 as int, y1 as int),
            (Step { x: x as int, y: y as int, err: err as int }) == bres_nth(
                x0 as int,
                y0 as int,
                x1 as int,
                y1 as int,
                k as nat,
            ),
        ensures
            grid.wf(),
            grid@ == write_all(g0, ws),
        decreases seg_steps(x0 as int, y0 as int, x1 as int, y1 as int) - k,
    {
        proof {
            lemma_bres_nth_inv(x0 as int, y0 as int, x1 as int, y1 as int, k as nat);
            lemma_inv_done(
                x0 as int,
                y0 as int,
                x1 as int,
                y1 as int,
                Step { x: x as int, y: y as int, err: err as int },
                k,
            );
        }
        grid.set(x as i128, y as i128, c);
        proof {
            assert(ws.take(k + 1) =~= ws.take(k).push(ws[k]));
            lemma_write_all_push(g0, ws.take(k), ws[k]);
        }
        if x == x1 && y == y1 {
            assert(ws.take(k + 1) =~= ws);
            break;
        }
        let e2 = 2 * err;
        if e2 >= dy {
            err = err + dy;
            x = x + sx;
        }
        if e2 <= dx {
            err = err + dx;
            y = y + sy;
        }
        proof {
            k = k + 1;
        }
    }
}

/// The glyph of a segment with extent (dx, dy), by its angle to the horizontal: under
/// 22.5 degrees a dash, under 67.5 degrees a slash that leans with the segment, else a bar.
/// As tan 22.5 = sqrt 2 - 1 and tan 67.5 = sqrt 2 + 1, the bounds are compared squared.
pub open spec fn line_glyph(dx: int, dy: int) -> char {
    let a = abs(dx);
    let b = abs(dy);
    if dx == 0 {
        '|'
    } else if dy == 0 {
        '-'
    } else if (a + b) * (a + b) < 2 * a * a {
        '-'
    } else if b < a || (b - a) * (b - a) < 2 * a * a {
        if (dx > 0) == (dy > 0) {
            '\\'
        } else {
            '/'
        }
    } else {
        '|'
    }
}

/// The glyph for a straight line of extent (dx, dy) in drawing units.
pub fn get_line_char(dx: i64, dy: i64) -> (ch: char)
    requires
        in_range(dx as int),
        in_range(dy as int),
    ensures
        ch == line_glyph(dx as int, dy as int),
{
    if dx == 0 {
        return '|';
    }
    if dy == 0 {
        return '-';
    }
    let a: i128 = if dx < 0 {
        -(dx as i128)
    } else {
        dx as i128
    };
    let b: i128 = if dy < 0 {
        -(dy as i128)
    } else {
        dy as i128
    };
    assert((a + b) * (a + b) <= 0x10_0000_0000_0000_0000_0000_0000) by (nonlinear_arith)
        requires
            0 <= a <= 0x1_0000_0000_0000,
            0 <= b <= 0x1_0000_0000_0000,
    ;
    assert(2 * a * a <= 0x10_0000_0000_0000_0000_0000_0000) by (nonlinear_arith)
        requires
            0 <= a <= 0x1_0000_0000_0000,
    ;
    assert((b - a) * (b - a) <= 0x10_0000_0000_0000_0000_0000_0000) by (nonlinear_arith)
        requires
            0 <= a <= 0x1_0000_0000_0000,
            0 <= b <= 0x1_0000_0000_0000,
    ;
    let going_down_right = (dx > 0) == (dy > 0);
    if (a + b) * (a + b) < 2 * a * a {
        '-'
    } else if b < a || (b - a) * (b - a) < 2 * a * a {
        if going_down_right {
            '\\'
        } else {
            '/'
        }
    } else {
        '|'
    }
}

} // verus!

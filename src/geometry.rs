use vstd::prelude::*;

verus! {

/// A point of the drawing, in drawing units; y grows downward.
#[derive(Clone, Copy, Debug, PartialEq, Eq, Structural)]
pub struct Point {
    pub x: i32,
    pub y: i32,
}

impl Point {
    pub fn new(x: i32, y: i32) -> (p: Point)
        ensures
            p == (Point { x, y }),
    {
        Point { x, y }
    }

    /// The vector from `o` to this point.
    pub fn sub(self, o: Point) -> (d: (i64, i64))
        ensures
            d.0 == self.x - o.x,
            d.1 == self.y - o.y,
    {
        (self.x as i64 - o.x as i64, self.y as i64 - o.y as i64)
    }
}

pub open spec fn abs(v: int) -> int {
    if v < 0 {
        -v
    } else {
        v
    }
}

/// `v / s` rounded to the nearest integer, halves away from zero.
pub open spec fn round_div(v: int, s: int) -> int {
    if v >= 0 {
        (2 * v + s) / (2 * s)
    } else {
        -((-2 * v + s) / (2 * s))
    }
}

/// `p / q` rounded down, for a positive `q`.
pub open spec fn floor_div(p: int, q: int) -> int {
    if p >= 0 {
        p / q
    } else {
        -((-p + q - 1) / q)
    }
}

/// `p / q` rounded up, for a positive `q`.
pub open spec fn ceil_div(p: int, q: int) -> int {
    -floor_div(-p, q)
}

pub proof fn lemma_round_div_bound(v: int, s: int)
    requires
        s >= 1,
    ensures
        -abs(v) - 1 <= round_div(v, s) <= abs(v) + 1,
{
    if v >= 0 {
        vstd::arithmetic::div_mod::lemma_div_pos_is_pos(2 * v + s, 2 * s);
        assert((2 * v + s) / (2 * s) <= v + 1) by {
            assert(2 * v + s <= (v + 1) * (2 * s)) by (nonlinear_arith)
                requires
                    v >= 0,
                    s >= 1,
            ;
            vstd::arithmetic::div_mod::lemma_div_is_ordered(2 * v + s, (v + 1) * (2 * s), 2 * s);
            vstd::arithmetic::div_mod::lemma_div_by_multiple(v + 1, 2 * s);
        }
    } else {
        let u = -v;
        vstd::arithmetic::div_mod::lemma_div_pos_is_pos(2 * u + s, 2 * s);
        assert((2 * u + s) / (2 * s) <= u + 1) by {
            assert(2 * u + s <= (u + 1) * (2 * s)) by (nonlinear_arith)
                requires
                    u >= 0,
                    s >= 1,
            ;
            vstd::arithmetic::div_mod::lemma_div_is_ordered(2 * u + s, (u + 1) * (2 * s), 2 * s);
            vstd::arithmetic::div_mod::lemma_div_by_multiple(u + 1, 2 * s);
        }
    }
}

/// Maps one coordinate to its cell: divided by the scale and rounded to nearest.
pub fn to_cell(v: i32, s: usize) -> (r: i64)
    requires
        s >= 1,
    ensures
        r == round_div(v as int, s as int),
{
    proof {
        lemma_round_div_bound(v as int, s as int);
    }
    let s2: i128 = 2 * (s as i128);
    let v2: i128 = 2 * (v as i128);
    if v >= 0 {
        ((v2 + s as i128) / s2) as i64
    } else {
        (-((-v2 + s as i128) / s2)) as i64
    }
}

/// A point mapped to the cell that holds it.
pub fn to_ixy(p: Point, s: usize) -> (r: (i64, i64))
    requires
        s >= 1,
    ensures
        r.0 == round_div(p.x as int, s as int),
        r.1 == round_div(p.y as int, s as int),
{
    (to_cell(p.x, s), to_cell(p.y, s))
}

/// A length mapped to a count of cells: rounded to nearest, and never negative.
pub fn to_len(v: i32, s: usize) -> (r: i64)
    requires
        s >= 1,
    ensures
        r == if round_div(v as int, s as int) > 0 {
            round_div(v as int, s as int)
        } else {
            0
        },
{
    let c = to_cell(v, s);
    if c > 0 {
        c
    } else {
        0
    }
}

/// Rounds `p / q` down, for a positive `q`.
pub fn floor_div_exec(p: i128, q: i128) -> (r: i128)
    requires
        q > 0,
        -0x1_0000_0000_0000_0000_0000 <= p <= 0x1_0000_0000_0000_0000_0000,
        q <= 0x1_0000_0000_0000_0000_0000,
    ensures
        r == floor_div(p as int, q as int),
{
    if p >= 0 {
        p / q
    } else {
        proof {
            vstd::arithmetic::div_mod::lemma_div_is_ordered_by_denominator(-p + q - 1, 1, q as int);
            vstd::arithmetic::div_mod::lemma_div_pos_is_pos(-p + q - 1, q as int);
        }
        -((-p + q - 1) / q)
    }
}

} // verus!

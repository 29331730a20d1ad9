use vstd::prelude::*;
use vstd::string::StrSliceExecFns;

use crate::ellipse::{ellipse_fill, ellipse_outline, oval_fill_writes, oval_outline_writes};
use crate::geometry::{abs, lemma_round_div_bound, round_div, to_cell, to_ixy, to_len, Point};
use crate::grid::{lemma_write_all_concat, lemma_write_all_push, write_all, wr, Cell, Grid, Write};
use crate::line::{draw_line_segment, get_line_char, line_glyph, segment_writes};
use crate::palette::{spec_term_color, style_color_to_term_color, Color};
use crate::raster::{block_writes, glyph, outline_writes, plain, rect_fill, rect_outline};
use crate::render::{finalize_plain, finalize_with_colors, render_colored, render_plain};
use crate::text::{text_at_center, text_writes};

verus! {

/// A handle to a recorded clip region: its index among the regions.
pub type ClipHandle = usize;

/// How a shape is drawn: stroke color and width (not shown on a grid), an optional fill
/// color, a corner radius, and the font size, which also counts drawing units per cell.
#[derive(Clone, Copy, Debug, PartialEq, Eq, Structural)]
pub struct StyleAttr {
    pub line_color: Color,
    pub line_width: usize,
    pub fill_color: Option<Color>,
    pub rounded: usize,
    pub font_size: usize,
}

impl StyleAttr {
    pub fn new(
        line_color: Color,
        line_width: usize,
        fill_color: Option<Color>,
        rounded: usize,
        font_size: usize,
    ) -> (s: StyleAttr)
        ensures
            s == (StyleAttr { line_color, line_width, fill_color, rounded, font_size }),
    {
        StyleAttr { line_color, line_width, fill_color, rounded, font_size }
    }
}

/// A rectangle with the side lengths rounded to whole cells, as (x, y, w, h).
pub open spec fn cell_rect(xy: Point, size: Point, s: int) -> (int, int, int, int) {
    let w = round_div(size.x as int, s);
    let h = round_div(size.y as int, s);
    (
        round_div(xy.x as int, s),
        round_div(xy.y as int, s),
        if w > 0 { w } else { 0 },
        if h > 0 { h } else { 0 },
    )
}

/// The cell a fill is drawn with: colored only when colors are on.
pub open spec fn fill_cell(ch: char, fill: Option<Color>, colors: bool) -> Cell {
    Cell { ch, color: if colors { spec_term_color(fill) } else { None } }
}

/// A rectangle: its fill when there is a fill color and the output is for a terminal,
/// then its outline.
pub open spec fn rect_writes(
    xy: Point,
    size: Point,
    look: StyleAttr,
    terminal: bool,
    colors: bool,
) -> Seq<Write> {
    let (x, y, w, h) = cell_rect(xy, size, look.font_size as int);
    (if look.fill_color is Some && terminal {
        block_writes(x, y, w, h, fill_cell('█', look.fill_color, colors))
    } else {
        Seq::empty()
    }) + outline_writes(x, y, w, h)
}

/// An ellipse of size `size` centred on `xy`: its fill when there is a fill color and
/// the output is for a terminal, then its outline when both sides are positive.
pub open spec fn circle_writes(
    xy: Point,
    size: Point,
    look: StyleAttr,
    terminal: bool,
    colors: bool,
) -> Seq<Write> {
    let s = look.font_size as int;
    (if look.fill_color is Some && terminal {
        oval_fill_writes(
            xy.x as int,
            xy.y as int,
            size.x as int,
            size.y as int,
            s,
            fill_cell('●', look.fill_color, colors),
        )
    } else {
        Seq::empty()
    }) + if size.x > 0 && size.y > 0 {
        oval_outline_writes(
            round_div(xy.x as int, s),
            round_div(xy.y as int, s),
            round_div(size.x as int, s),
            round_div(size.y as int, s),
        )
    } else {
        Seq::empty()
    }
}

/// A segment between two points, in the glyph that its angle calls for.
pub open spec fn line_writes(start: Point, stop: Point, s: int) -> Seq<Write> {
    segment_writes(
        round_div(start.x as int, s),
        round_div(start.y as int, s),
        round_div(stop.x as int, s),
        round_div(stop.y as int, s),
        glyph(line_glyph(stop.x - start.x, stop.y - start.y)),
    )
}

/// The segments between consecutive points among the first `m`, in glyph `c`.
pub open spec fn polyline_writes(anchors: Seq<Point>, m: int, s: int, c: Cell) -> Seq<Write>
    decreases m,
{
    if m <= 1 {
        Seq::empty()
    } else {
        polyline_writes(anchors, m - 1, s, c) + segment_writes(
            round_div(anchors[m - 2].x as int, s),
            round_div(anchors[m - 2].y as int, s),
            round_div(anchors[m - 1].x as int, s),
            round_div(anchors[m - 1].y as int, s),
            c,
        )
    }
}

/// The arrow head for a direction: by the axis it runs along most, then by its sign.
pub open spec fn head_glyph(dx: int, dy: int) -> char {
    if abs(dx) >= abs(dy) {
        if dx >= 0 {
            '>'
        } else {
            '<'
        }
    } else if dy >= 0 {
        'v'
    } else {
        '^'
    }
}

pub open spec fn anchors_of(path: Seq<(Point, Point)>) -> Seq<Point> {
    Seq::new(path.len(), |i: int| path[i].0)
}

/// A head at `at`, in the glyph for the direction from `p` to `q`.
pub open spec fn head_write(p: Point, q: Point, at: Point, s: int) -> Write {
    wr(round_div(at.x as int, s), round_div(at.y as int, s), glyph(head_glyph(q.x - p.x, q.y - p.y)))
}

/// An arrow along the anchors of a path: the polyline (dots when dashed, stars when not);
/// the heads that are asked for, each by the direction of the segment at its end (at the
/// first anchor, from the first to the second; at the last, from the one before to the
/// last); then the label centred on the middle anchor. Nothing for an empty path.
pub open spec fn arrow_writes(
    path: Seq<(Point, Point)>,
    dashed: bool,
    head: (bool, bool),
    s: int,
    label: Seq<char>,
) -> Seq<Write> {
    let a = anchors_of(path);
    let n = a.len() as int;
    if n == 0 {
        Seq::empty()
    } else {
        polyline_writes(a, n, s, glyph(if dashed { '.' } else { '*' })) + (if n >= 2 && head.0 {
            seq![head_write(a[0], a[1], a[0], s)]
        } else {
            Seq::empty()
        }) + (if n >= 2 && head.1 {
            seq![head_write(a[n - 2], a[n - 1], a[n - 1], s)]
        } else {
            Seq::empty()
        }) + if label.len() > 0 {
            text_writes(round_div(a[n / 2].x as int, s), round_div(a[n / 2].y as int, s), label)
        } else {
            Seq::empty()
        }
    }
}

/// The text a grid becomes: with color escapes when the output is for a terminal and
/// colors are on, plain otherwise.
pub open spec fn rendered(cells: Seq<Seq<Cell>>, terminal: bool, colors: bool) -> Seq<char> {
    if terminal && colors {
        render_colored(cells)
    } else {
        render_plain(cells)
    }
}

/// Relies on atty::is: whether standard output is a terminal; it depends on the
/// environment, so nothing is promised of it.
#[verifier::external_body]
fn stdout_is_terminal() -> bool {
    atty::is(atty::Stream::Stdout)
}

/// Relies on String::from_iter: the string of the given characters, in order.
#[verifier::external_body]
fn string_from_chars(v: &Vec<char>) -> (s: String)
    ensures
        s@ == v@,
{
    String::from_iter(v)
}

/// The characters of a text, in order.
fn chars_of(t: &str) -> (v: Vec<char>)
    ensures
        v@ == t@,
{
    let n = t.unicode_len();
    let mut v: Vec<char> = Vec::new();
    let mut i: usize = 0;
    while i < n
        invariant
            n == t@.len(),
            i <= n,
            v@ == t@.take(i as int),
        decreases n - i,
    {
        v.push(t.get_char(i));
        i = i + 1;
        assert(v@ =~= t@.take(i as int));
    }
    assert(t@.take(n as int) =~= t@);
    v
}

/// The arrow head glyph for a direction (dx, dy).
pub fn head_char(dx: i64, dy: i64) -> (ch: char)
    requires
        -0x1_0000_0000_0000 <= dx <= 0x1_0000_0000_0000,
        -0x1_0000_0000_0000 <= dy <= 0x1_0000_0000_0000,
    ensures
        ch == head_glyph(dx as int, dy as int),
{
    let ax = if dx < 0 {
        -dx
    } else {
        dx
    };
    let ay = if dy < 0 {
        -dy
    } else {
        dy
    };
    if ax >= ay {
        if dx >= 0 {
            '>'
        } else {
            '<'
        }
    } else if dy >= 0 {
        'v'
    } else {
        '^'
    }
}

/// Draws the segments between consecutive anchors in cell `c`.
fn draw_polyline(grid: &mut Grid, anchors: &Vec<Point>, s: usize, c: Cell)
    requires
        old(grid).wf(),
        s >= 1,
    ensures
        final(grid).wf(),
        final(grid)@ == write_all(old(grid)@, polyline_writes(anchors@, anchors@.len() as int, s as int, c)),
{
    let ghost g0 = grid@;
    let mut i: usize = 1;
    while i < anchors.len()
        invariant
            grid.wf(),
            s >= 1,
            1 <= i,
            i <= (if anchors@.len() >= 1 { anchors@.len() as int } else { 1 }),
            grid@ == write_all(g0, polyline_writes(anchors@, i as int, s as int, c)),
        decreases anchors@.len() - i,
    {
        let a = anchors[i - 1];
        let b = anchors[i];
        proof {
            lemma_round_div_bound(a.x as int, s as int);
            lemma_round_div_bound(a.y as int, s as int);
            lemma_round_div_bound(b.x as int, s as int);
            lemma_round_div_bound(b.y as int, s as int);
        }
        let (x0, y0) = to_ixy(a, s);
        let (x1, y1) = to_ixy(b, s);
        let ghost prev = polyline_writes(anchors@, i as int, s as int, c);
        draw_line_segment(grid, x0, y0, x1, y1, c);
        proof {
            lemma_write_all_concat(
                g0,
                prev,
                segment_writes(x0 as int, y0 as int, x1 as int, y1 as int, c),
            );
        }
        i = i + 1;
    }
    proof {
        if anchors@.len() <= 1 {
            assert(polyline_writes(anchors@, anchors@.len() as int, s as int, c) =~= Seq::<Write>::empty());
            assert(polyline_writes(anchors@, i as int, s as int, c) =~= Seq::<Write>::empty());
        }
    }
}

/// Draws vector shapes into a grid of characters and turns it into text.
pub struct ASCIIWriter {
    grid: Grid,
    clips: Vec<(Point, Point, usize)>,
    is_terminal: bool,
    use_colors: bool,
}

impl ASCIIWriter {
    /// The cells drawn so far.
    pub closed spec fn cells(&self) -> Seq<Seq<Cell>> {
        self.grid@
    }

    /// The clip regions recorded so far.
    pub closed spec fn clip_list(&self) -> Seq<(Point, Point, usize)> {
        self.clips@
    }

    pub closed spec fn terminal(&self) -> bool {
        self.is_terminal
    }

    pub closed spec fn colors(&self) -> bool {
        self.use_colors
    }

    pub closed spec fn wf(&self) -> bool {
        &&& self.grid.wf()
        &&& (self.use_colors ==> self.is_terminal)
    }

    /// A writer whose output mode follows whether standard output is a terminal.
    pub fn new() -> (w: ASCIIWriter)
        ensures
            w.wf(),
            w.cells() == Seq::<Seq<Cell>>::empty(),
            w.clip_list() == Seq::<(Point, Point, usize)>::empty(),
            w.colors() == w.terminal(),
    {
        let t = stdout_is_terminal();
        ASCIIWriter::new_with_color_setting(t, t)
    }

    /// A writer for a terminal (fills, in color) or for plain text (outlines only).
    pub fn new_with_terminal_setting(is_terminal: bool) -> (w: ASCIIWriter)
        ensures
            w.wf(),
            w.cells() == Seq::<Seq<Cell>>::empty(),
            w.clip_list() == Seq::<(Point, Point, usize)>::empty(),
            w.terminal() == is_terminal,
            w.colors() == is_terminal,
    {
        ASCIIWriter::new_with_color_setting(is_terminal, is_terminal)
    }

    /// A writer with both settings given; colors stay off unless the output is for a terminal.
    pub fn new_with_color_setting(is_terminal: bool, use_colors: bool) -> (w: ASCIIWriter)
        ensures
            w.wf(),
            w.cells() == Seq::<Seq<Cell>>::empty(),
            w.clip_list() == Seq::<(Point, Point, usize)>::empty(),
            w.terminal() == is_terminal,
            w.colors() == (use_colors && is_terminal),
    {
        ASCIIWriter {
            grid: Grid::new(),
            clips: Vec::new(),
            is_terminal,
            use_colors: use_colors && is_terminal,
        }
    }

    /// Whether this writer is configured for terminal output.
    pub fn is_terminal(&self) -> (r: bool)
        ensures
            r == self.terminal(),
    {
        self.is_terminal
    }

    /// Whether this writer uses colors.
    pub fn uses_colors(&self) -> (r: bool)
        ensures
            r == self.colors(),
    {
        self.use_colors
    }

    /// Turns colors on or off; they stay off unless the output is for a terminal.
    pub fn set_use_colors(&mut self, use_colors: bool)
        requires
            old(self).wf(),
        ensures
            final(self).wf(),
            final(self).colors() == (use_colors && old(self).terminal()),
            final(self).terminal() == old(self).terminal(),
            final(self).cells() == old(self).cells(),
            final(self).clip_list() == old(self).clip_list(),
    {
        self.use_colors = use_colors && self.is_terminal;
    }

    /// The drawing as text, one line per grid row, each without trailing blanks.
    pub fn finalize(&self) -> (r: String)
        requires
            self.wf(),
        ensures
            r@ == rendered(self.cells(), self.terminal(), self.colors()),
    {
        let out = if self.is_terminal && self.use_colors {
            finalize_with_colors(&self.grid)
        } else {
            finalize_plain(&self.grid)
        };
        string_from_chars(&out)
    }

    /// Draws a rectangle with its top left corner at `xy`.
    pub fn draw_rect(
        &mut self,
        xy: Point,
        size: Point,
        look: &StyleAttr,
        _properties: Option<String>,
        _clip: Option<ClipHandle>,
    )
        requires
            old(self).wf(),
            look.font_size >= 1,
        ensures
            final(self).wf(),
            final(self).cells() == write_all(
                old(self).cells(),
                rect_writes(xy, size, *look, old(self).terminal(), old(self).colors()),
            ),
            final(self).terminal() == old(self).terminal(),
            final(self).colors() == old(self).colors(),
            final(self).clip_list() == old(self).clip_list(),
    {
        let s = look.font_size;
        proof {
            lemma_round_div_bound(xy.x as int, s as int);
            lemma_round_div_bound(xy.y as int, s as int);
            lemma_round_div_bound(size.x as int, s as int);
            lemma_round_div_bound(size.y as int, s as int);
        }
        let (ix, iy) = to_ixy(xy, s);
        let w = to_len(size.x, s);
        let h = to_len(size.y, s);
        let ghost g0 = self.grid@;
        let ghost fill = if look.fill_color is Some && self.is_terminal {
            block_writes(
                ix as int,
                iy as int,
                w as int,
                h as int,
                fill_cell('█', look.fill_color, self.use_colors),
            )
        } else {
            Seq::empty()
        };
        if look.fill_color.is_some() && self.is_terminal {
            let color = if self.use_colors {
                style_color_to_term_color(look.fill_color)
            } else {
                None
            };
            rect_fill(&mut self.grid, ix, iy, w, h, Cell { ch: '█', color });
        }
        assert(self.grid@ == write_all(g0, fill));
        rect_outline(&mut self.grid, ix, iy, w, h);
        proof {
            lemma_write_all_concat(g0, fill, outline_writes(ix as int, iy as int, w as int, h as int));
        }
    }

    /// Draws a straight line in the glyph that its angle calls for.
    pub fn draw_line(&mut self, start: Point, stop: Point, look: &StyleAttr, _properties: Option<String>)
        requires
            old(self).wf(),
            look.font_size >= 1,
        ensures
            final(self).wf(),
            final(self).cells() == write_all(
                old(self).cells(),
                line_writes(start, stop, look.font_size as int),
            ),
            final(self).terminal() == old(self).terminal(),
            final(self).colors() == old(self).colors(),
            final(self).clip_list() == old(self).clip_list(),
    {
        let s = look.font_size;
        proof {
            lemma_round_div_bound(start.x as int, s as int);
            lemma_round_div_bound(start.y as int, s as int);
            lemma_round_div_bound(stop.x as int, s as int);
            lemma_round_div_bound(stop.y as int, s as int);
        }
        let (dx, dy) = stop.sub(start);
        let ch = get_line_char(dx, dy);
        let (x0, y0) = to_ixy(start, s);
        let (x1, y1) = to_ixy(stop, s);
        draw_line_segment(&mut self.grid, x0, y0, x1, y1, plain(ch));
    }

    /// Draws an ellipse of size `size` centred on `xy`.
    pub fn draw_circle(&mut self, xy: Point, size: Point, look: &StyleAttr, _properties: Option<String>)
        requires
            old(self).wf(),
            look.font_size >= 1,
        ensures
            final(self).wf(),
            final(self).cells() == write_all(
                old(self).cells(),
                circle_writes(xy, size, *look, old(self).terminal(), old(self).colors()),
            ),
            final(self).terminal() == old(self).terminal(),
            final(self).colors() == old(self).colors(),
            final(self).clip_list() == old(self).clip_list(),
    {
        let s = look.font_size;
        proof {
            lemma_round_div_bound(xy.x as int, s as int);
            lemma_round_div_bound(xy.y as int, s as int);
            lemma_round_div_bound(size.x as int, s as int);
            lemma_round_div_bound(size.y as int, s as int);
        }
        let ghost g0 = self.grid@;
        let ghost fill = if look.fill_color is Some && self.is_terminal {
            oval_fill_writes(
                xy.x as int,
                xy.y as int,
                size.x as int,
                size.y as int,
                s as int,
                fill_cell('●', look.fill_color, self.use_colors),
            )
        } else {
            Seq::empty()
        };
        if look.fill_color.is_some() && self.is_terminal {
            let color = if self.use_colors {
                style_color_to_term_color(look.fill_color)
            } else {
                None
            };
            ellipse_fill(&mut self.grid, xy.x, xy.y, size.x, size.y, s, Cell { ch: '●', color });
        }
        assert(self.grid@ == write_all(g0, fill));
        let ghost g1 = self.grid@;
        let ghost outline = if size.x > 0 && size.y > 0 {
            oval_outline_writes(
                round_div(xy.x as int, s as int),
                round_div(xy.y as int, s as int),
                round_div(size.x as int, s as int),
                round_div(size.y as int, s as int),
            )
        } else {
            Seq::empty()
        };
        if size.x > 0 && size.y > 0 {
            let (cx, cy) = to_ixy(xy, s);
            let w = to_cell(size.x, s);
            let h = to_cell(size.y, s);
            ellipse_outline(&mut self.grid, cx, cy, w, h);
        }
        assert(self.grid@ == write_all(g1, outline));
        proof {
            lemma_write_all_concat(g0, fill, outline);
        }
    }

    /// Writes a text centred on `xy`.
    pub fn draw_text(&mut self, xy: Point, text: &str, look: &StyleAttr)
        requires
            old(self).wf(),
            look.font_size >= 1,
        ensures
            final(self).wf(),
            final(self).cells() == write_all(
                old(self).cells(),
                text_writes(
                    round_div(xy.x as int, look.font_size as int),
                    round_div(xy.y as int, look.font_size as int),
                    text@,
                ),
            ),
            final(self).terminal() == old(self).terminal(),
            final(self).colors() == old(self).colors(),
            final(self).clip_list() == old(self).clip_list(),
    {
        let s = look.font_size;
        proof {
            lemma_round_div_bound(xy.x as int, s as int);
            lemma_round_div_bound(xy.y as int, s as int);
        }
        let (cx, cy) = to_ixy(xy, s);
        let chars = chars_of(text);
        text_at_center(&mut self.grid, cx, cy, &chars);
    }

    /// Records a clip region and returns its handle; drawing is never clipped.
    pub fn create_clip(&mut self, xy: Point, size: Point, rounded_px: usize) -> (h: ClipHandle)
        requires
            old(self).wf(),
            old(self).clip_list().len() < usize::MAX,
        ensures
            final(self).wf(),
            h == old(self).clip_list().len(),
            final(self).clip_list() == old(self).clip_list().push((xy, size, rounded_px)),
            final(self).cells() == old(self).cells(),
            final(self).terminal() == old(self).terminal(),
            final(self).colors() == old(self).colors(),
    {
        self.clips.push((xy, size, rounded_px));
        self.clips.len() - 1
    }

    /// Draws an arrow along the anchors of a path, with the heads asked for and a label
    /// on its middle anchor.
    pub fn draw_arrow(
        &mut self,
        path: &[(Point, Point)],
        dashed: bool,
        head: (bool, bool),
        look: &StyleAttr,
        _properties: Option<String>,
        text: &str,
    )
        requires
            old(self).wf(),
            look.font_size >= 1,
        ensures
            final(self).wf(),
            final(self).cells() == write_all(
                old(self).cells(),
                arrow_writes(path@, dashed, head, look.font_size as int, text@),
            ),
            final(self).terminal() == old(self).terminal(),
            final(self).colors() == old(self).colors(),
            final(self).clip_list() == old(self).clip_list(),
    {
        let s = look.font_size;
        if path.len() == 0 {
            return;
        }
        let ghost g0 = self.grid@;
        let mut anchors: Vec<Point> = Vec::new();
        let mut i: usize = 0;
        while i < path.len()
            invariant
                i <= path@.len(),
                anchors@ == anchors_of(path@).take(i as int),
            decreases path@.len() - i,
        {
            anchors.push(path[i].0);
            i = i + 1;
            assert(anchors@ =~= anchors_of(path@).take(i as int));
        }
        assert(anchors@ =~= anchors_of(path@));
        let ghost a = anchors@;
        let n = anchors.len();
        let seg = plain(if dashed {
            '.'
        } else {
            '*'
        });
        draw_polyline(&mut self.grid, &anchors, s, seg);
        let ghost g1 = self.grid@;
        let ghost h0 = if n >= 2 && head.0 {
            seq![head_write(a[0], a[1], a[0], s as int)]
        } else {
            Seq::empty()
        };
        if n >= 2 && head.0 {
            let (dx, dy) = anchors[1].sub(anchors[0]);
            let hc = head_char(dx, dy);
            proof {
                lemma_round_div_bound(a[0].x as int, s as int);
                lemma_round_div_bound(a[0].y as int, s as int);
            }
            let (ix, iy) = to_ixy(anchors[0], s);
            self.grid.set(ix as i128, iy as i128, plain(hc));
            proof {
                lemma_write_all_push(g1, Seq::empty(), h0[0]);
                assert(Seq::<Write>::empty().push(h0[0]) =~= h0);
            }
        }
        assert(self.grid@ == write_all(g1, h0));
        let ghost g2 = self.grid@;
        let ghost h1 = if n >= 2 && head.1 {
            seq![head_write(a[n - 2], a[n - 1], a[n - 1], s as int)]
        } else {
            Seq::empty()
        };
        if n >= 2 && head.1 {
            let (dx, dy) = anchors[n - 1].sub(anchors[n - 2]);
            let hc = head_char(dx, dy);
            proof {
                lemma_round_div_bound(a[n - 1].x as int, s as int);
                lemma_round_div_bound(a[n - 1].y as int, s as int);
            }
            let (ix, iy) = to_ixy(anchors[n - 1], s);
            self.grid.set(ix as i128, iy as i128, plain(hc));
            proof {
                lemma_write_all_push(g2, Seq::empty(), h1[0]);
                assert(Seq::<Write>::empty().push(h1[0]) =~= h1);
            }
        }
        assert(self.grid@ == write_all(g2, h1));
        let ghost g3 = self.grid@;
        let ghost label = if text@.len() > 0 {
            text_writes(
                round_div(a[(n / 2) as int].x as int, s as int),
                round_div(a[(n / 2) as int].y as int, s as int),
                text@,
            )
        } else {
            Seq::empty()
        };
        let chars = chars_of(text);
        if chars.len() > 0 {
            let mid = anchors[n / 2];
            proof {
                lemma_round_div_bound(mid.x as int, s as int);
                lemma_round_div_bound(mid.y as int, s as int);
            }
            let (cx, cy) = to_ixy(mid, s);
            text_at_center(&mut self.grid, cx, cy, &chars);
        }
        assert(self.grid@ == write_all(g3, label));
        proof {
            let pl = polyline_writes(a, n as int, s as int, glyph(if dashed { '.' } else { '*' }));
            lemma_write_all_concat(g0, pl, h0);
            lemma_write_all_concat(g0, pl + h0, h1);
            lemma_write_all_concat(g0, pl + h0 + h1, label);
        }
    }
}

impl Default for ASCIIWriter {
    fn default() -> (w: ASCIIWriter)
        ensures
            w.wf(),
            w.cells() == Seq::<Seq<Cell>>::empty(),
            w.clip_list() == Seq::<(Point, Point, usize)>::empty(),
            w.colors() == w.terminal(),
    {
        ASCIIWriter::new()
    }
}

} // verus!

use vstd::prelude::*;

use crate::grid::{Cell, Grid};
use crate::palette::{color_to_ansi, spec_ansi_code, TermColor};

verus! {

/// Length of a row once its trailing blank glyphs are cut off.
pub open spec fn trim_end(row: Seq<Cell>) -> nat
    decreases row.len(),
{
    if row.len() == 0 {
        0
    } else if row.last().ch == ' ' {
        trim_end(row.drop_last())
    } else {
        row.len()
    }
}

/// The cells of a row that reach the output: those up to its last glyph that is not blank.
pub open spec fn rendered_line_cells(row: Seq<Cell>) -> Seq<Cell> {
    row.take(trim_end(row) as int)
}

/// A row as plain text: its glyphs up to the last one that is not blank, then a newline.
pub open spec fn plain_line(row: Seq<Cell>) -> Seq<char> {
    Seq::new(trim_end(row), |i: int| rendered_line_cells(row)[i].ch).push('\n')
}

/// The grid as plain text, one line per row.
pub open spec fn render_plain(g: Seq<Seq<Cell>>) -> Seq<char>
    decreases g.len(),
{
    if g.len() == 0 {
        Seq::empty()
    } else {
        render_plain(g.drop_last()) + plain_line(g.last())
    }
}

pub open spec fn digit_char(d: int) -> char {
    if d == 0 {
        '0'
    } else if d == 1 {
        '1'
    } else if d == 2 {
        '2'
    } else if d == 3 {
        '3'
    } else if d == 4 {
        '4'
    } else if d == 5 {
        '5'
    } else if d == 6 {
        '6'
    } else if d == 7 {
        '7'
    } else if d == 8 {
        '8'
    } else {
        '9'
    }
}

/// The escape that returns the terminal to its default color.
pub open spec fn reset_seq() -> Seq<char> {
    seq!['\x1b', '[', '0', 'm']
}

/// The escape that sets the foreground color: its code in decimal between `ESC [` and `m`.
pub open spec fn set_seq(c: TermColor) -> Seq<char> {
    let code = spec_ansi_code(c) as int;
    seq!['\x1b', '[', digit_char(code / 10), digit_char(code % 10), 'm']
}

/// Color in force after a run of cells: that of its last cell.
pub open spec fn last_color(cells: Seq<Cell>) -> Option<TermColor> {
    if cells.len() == 0 {
        None
    } else {
        cells.last().color
    }
}

/// What is emitted between two cells whose colors differ: a reset if a color was in force,
/// then the new color if there is one. Nothing when the colors agree.
pub open spec fn transition(from: Option<TermColor>, to: Option<TermColor>) -> Seq<char> {
    if from == to {
        Seq::empty()
    } else {
        (if from is Some {
            reset_seq()
        } else {
            Seq::empty()
        }) + match to {
            Some(c) => set_seq(c),
            None => Seq::empty(),
        }
    }
}

/// Cells with run-length color escapes, starting with no color in force.
pub open spec fn colored_cells(cells: Seq<Cell>) -> Seq<char>
    decreases cells.len(),
{
    if cells.len() == 0 {
        Seq::empty()
    } else {
        colored_cells(cells.drop_last()) + transition(
            last_color(cells.drop_last()),
            cells.last().color,
        ) + seq![cells.last().ch]
    }
}

/// A row with colors: its trimmed cells with escapes, a reset if a color is still in
/// force at the end, then a newline.
pub open spec fn colored_line(row: Seq<Cell>) -> Seq<char> {
    let t = rendered_line_cells(row);
    colored_cells(t) + (if last_color(t) is Some {
        reset_seq()
    } else {
        Seq::empty()
    }) + seq!['\n']
}

pub open spec fn render_colored(g: Seq<Seq<Cell>>) -> Seq<char>
    decreases g.len(),
{
    if g.len() == 0 {
        Seq::empty()
    } else {
        render_colored(g.drop_last()) + colored_line(g.last())
    }
}

/// Trailing blanks: what `trim_end` keeps ends with a glyph that is not blank, and all
/// that it drops is blank.
pub proof fn lemma_trim_end(row: Seq<Cell>)
    ensures
        trim_end(row) <= row.len(),
        trim_end(row) == 0 || row[trim_end(row) - 1].ch != ' ',
        forall|i: int| trim_end(row) <= i < row.len() ==> #[trigger] row[i].ch == ' ',
    decreases row.len(),
{
    if row.len() > 0 && row.last().ch == ' ' {
        lemma_trim_end(row.drop_last());
        assert forall|i: int| trim_end(row) <= i < row.len() implies #[trigger] row[i].ch == ' ' by {
            if i < row.len() - 1 {
                assert(row[i] == row.drop_last()[i]);
            }
        }
    }
}

fn digit(d: u8) -> (c: char)
    requires
        d < 10,
    ensures
        c == digit_char(d as int),
{
    if d == 0 {
        '0'
    } else if d == 1 {
        '1'
    } else if d == 2 {
        '2'
    } else if d == 3 {
        '3'
    } else if d == 4 {
        '4'
    } else if d == 5 {
        '5'
    } else if d == 6 {
        '6'
    } else if d == 7 {
        '7'
    } else if d == 8 {
        '8'
    } else {
        '9'
    }
}

fn push_reset(out: &mut Vec<char>)
    ensures
        final(out)@ == old(out)@ + reset_seq(),
{
    out.push('\x1b');
    out.push('[');
    out.push('0');
    out.push('m');
    assert(final(out)@ =~= old(out)@ + reset_seq());
}

fn push_set(out: &mut Vec<char>, c: TermColor)
    ensures
        final(out)@ == old(out)@ + set_seq(c),
{
    let code = color_to_ansi(c);
    out.push('\x1b');
    out.push('[');
    out.push(digit(code / 10));
    out.push(digit(code % 10));
    out.push('m');
    assert(final(out)@ =~= old(out)@ + set_seq(c));
}

/// The length of a row without its trailing blank glyphs.
pub fn trimmed_len(row: &Vec<Cell>) -> (n: usize)
    ensures
        n == trim_end(row@),
{
    let mut end: usize = row.len();
    assert(row@.take(end as int) =~= row@);
    while end > 0 && row[end - 1].ch == ' '
        invariant
            end <= row@.len(),
            trim_end(row@.take(end as int)) == trim_end(row@),
        decreases end,
    {
        assert(row@.take(end as int).drop_last() =~= row@.take(end - 1));
        end = end - 1;
    }
    proof {
        assert(row@.take(row@.len() as int) =~= row@);
        if end > 0 {
            assert(row@.take(end as int).last() == row@[end - 1]);
        }
    }
    end
}

/// The grid as plain text.
pub fn finalize_plain(grid: &Grid) -> (out: Vec<char>)
    ensures
        out@ == render_plain(grid@),
{
    let mut out: Vec<char> = Vec::new();
    let h = grid.height();
    let mut y: usize = 0;
    while y < h
        invariant
            h == grid@.len(),
            y <= h,
            out@ == render_plain(grid@.take(y as int)),
        decreases h - y,
    {
        let row = grid.row(y);
        let end = trimmed_len(row);
        proof {
            lemma_trim_end(row@);
        }
        let ghost before = out@;
        let mut i: usize = 0;
        while i < end
            invariant
                end == trim_end(row@),
                end <= row@.len(),
                i <= end,
                out@ == before + Seq::new(i as nat, |k: int| row@[k].ch),
            decreases end - i,
        {
            out.push(row[i].ch);
            i = i + 1;
            assert(out@ =~= before + Seq::new(i as nat, |k: int| row@[k].ch));
        }
        out.push('\n');
        proof {
            assert(grid@.take(y + 1).drop_last() =~= grid@.take(y as int));
            assert(out@ =~= before + plain_line(row@));
        }
        y = y + 1;
    }
    assert(grid@.take(h as int) =~= grid@);
    out
}

/// The grid as text with ANSI color escapes around colored runs.
pub fn finalize_with_colors(grid: &Grid) -> (out: Vec<char>)
    ensures
        out@ == render_colored(grid@),
{
    let mut out: Vec<char> = Vec::new();
    let h = grid.height();
    let mut y: usize = 0;
    while y < h
        invariant
            h == grid@.len(),
            y <= h,
            out@ == render_colored(grid@.take(y as int)),
        decreases h - y,
    {
        let row = grid.row(y);
        let end = trimmed_len(row);
        proof {
            lemma_trim_end(row@);
        }
        let ghost t = row@.take(end as int);
        let ghost before = out@;
        let mut current: Option<TermColor> = None;
        let mut i: usize = 0;
        while i < end
            invariant
                end == trim_end(row@),
                end <= row@.len(),
                t == row@.take(end as int),
                i <= end,
                current == last_color(t.take(i as int)),
                out@ == before + colored_cells(t.take(i as int)),
            decreases end - i,
        {
            let cell = row[i];
            assert(t.take(i + 1).drop_last() =~= t.take(i as int));
            if cell.color != current {
                if current.is_some() {
                    push_reset(&mut out);
                }
                match cell.color {
                    Some(c) => push_set(&mut out, c),
                    None => {},
                }
            }
            out.push(cell.ch);
            current = cell.color;
            i = i + 1;
            assert(out@ =~= before + colored_cells(t.take(i as int)));
        }
        assert(t.take(end as int) =~= t);
        if current.is_some() {
            push_reset(&mut out);
        }
        out.push('\n');
        proof {
            assert(grid@.take(y + 1).drop_last() =~= grid@.take(y as int));
            assert(out@ =~= before + colored_line(row@));
        }
        y = y + 1;
    }
    assert(grid@.take(h as int) =~= grid@);
    out
}

} // verus!

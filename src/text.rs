use vstd::prelude::*;

use crate::grid::{lemma_write_all_concat, lemma_write_all_push, write_all, wr, Grid, Write};
use crate::raster::{glyph, in_range, plain};

verus! {

/// The pieces of a text between its newlines: one more than there are newlines.
pub open spec fn split_nl(t: Seq<char>) -> Seq<Seq<char>>
    decreases t.len(),
{
    if t.len() == 0 {
        seq![Seq::empty()]
    } else {
        let rest = split_nl(t.drop_last());
        if t.last() == '\n' {
            rest.push(Seq::empty())
        } else {
            rest.update(rest.len() - 1, rest.last().push(t.last()))
        }
    }
}

/// A line that ended in a newline loses a carriage return before it.
pub open spec fn strip_cr(l: Seq<char>) -> Seq<char> {
    if l.len() > 0 && l.last() == '\r' {
        l.drop_last()
    } else {
        l
    }
}

/// The lines of a text: the pieces that a newline ends, without a carriage return at
/// their end, then what follows the last newline unless it is empty. An empty text is
/// one empty line.
pub open spec fn text_lines(t: Seq<char>) -> Seq<Seq<char>> {
    if t.len() == 0 {
        seq![Seq::empty()]
    } else {
        let p = split_nl(t);
        Seq::new((p.len() - 1) as nat, |i: int| strip_cr(p[i])) + if p.last().len() > 0 {
            seq![p.last()]
        } else {
            Seq::empty()
        }
    }
}

/// Splits a text into its lines.
pub fn split_lines(t: &Vec<char>) -> (lines: Vec<Vec<char>>)
    ensures
        lines@.len() == text_lines(t@).len(),
        forall|i: int| 0 <= i < lines@.len() ==> #[trigger] lines@[i]@ == text_lines(t@)[i],
{
    let mut lines: Vec<Vec<char>> = Vec::new();
    if t.len() == 0 {
        lines.push(Vec::new());
        return lines;
    }
    let ghost mut raw: Seq<Seq<char>> = Seq::empty();
    let mut cur: Vec<char> = Vec::new();
    let mut i: usize = 0;
    assert(t@.take(0) =~= Seq::<char>::empty());
    while i < t.len()
        invariant
            i <= t@.len(),
            split_nl(t@.take(i as int)) == raw.push(cur@),
            lines@.len() == raw.len(),
            forall|k: int| 0 <= k < raw.len() ==> #[trigger] lines@[k]@ == strip_cr(raw[k]),
        decreases t@.len() - i,
    {
        let ch = t[i];
        assert(t@.take(i + 1).drop_last() =~= t@.take(i as int));
        if ch == '\n' {
            let mut done = cur;
            if done.len() > 0 && done[done.len() - 1] == '\r' {
                done.pop();
                assert(done@ =~= strip_cr(raw.push(cur@).last()));
            }
            proof {
                raw = raw.push(cur@);
            }
            lines.push(done);
            cur = Vec::new();
            assert(split_nl(t@.take(i + 1)) =~= raw.push(cur@));
        } else {
            cur.push(ch);
            assert(split_nl(t@.take(i + 1)) =~= raw.push(cur@));
        }
        i = i + 1;
    }
    assert(t@.take(i as int) =~= t@);
    let ghost p = split_nl(t@);
    if cur.len() > 0 {
        lines.push(cur);
    }
    proof {
        assert(p.len() - 1 == raw.len());
        let want = text_lines(t@);
        assert(lines@.len() == want.len());
        assert forall|k: int| 0 <= k < lines@.len() implies #[trigger] lines@[k]@ == want[k] by {
            if k < raw.len() {
                assert(raw[k] == p[k]);
            }
        }
    }
    lines
}

/// The characters of one line, written left to right from (x, y).
pub open spec fn chars_writes(x: int, y: int, l: Seq<char>) -> Seq<Write> {
    Seq::new(l.len(), |j: int| wr(x + j, y, glyph(l[j])))
}

/// The first `m` lines of a block whose first line is row `top`, each centred on column `cx`.
pub open spec fn block_text_writes(cx: int, top: int, lines: Seq<Seq<char>>, m: int) -> Seq<Write>
    decreases m,
{
    if m <= 0 {
        Seq::empty()
    } else {
        block_text_writes(cx, top, lines, m - 1) + chars_writes(
            cx - lines[m - 1].len() / 2,
            top + m - 1,
            lines[m - 1],
        )
    }
}

/// A text centred on cell (cx, cy): its block of lines centred vertically, each line
/// centred on its own by its count of characters.
pub open spec fn text_writes(cx: int, cy: int, t: Seq<char>) -> Seq<Write> {
    let lines = text_lines(t);
    block_text_writes(cx, cy - (lines.len() - 1) / 2, lines, lines.len() as int)
}

/// Writes a text centred on cell (cx, cy), one cell per character.
pub fn text_at_center(grid: &mut Grid, cx: i64, cy: i64, text: &Vec<char>)
    requires
        old(grid).wf(),
        in_range(cx as int),
        in_range(cy as int),
    ensures
        final(grid).wf(),
        final(grid)@ == write_all(old(grid)@, text_writes(cx as int, cy as int, text@)),
{
    let ghost g0 = grid@;
    let lines = split_lines(text);
    let ghost ls = text_lines(text@);
    assert(lines@.len() == ls.len());
    let n = lines.len();
    let half: usize = if n > 0 {
        (n - 1) / 2
    } else {
        0
    };
    let start_y: i128 = cy as i128 - half as i128;
    let ghost top = cy - (n - 1) / 2;
    let mut li: usize = 0;
    while li < n
        invariant
            grid.wf(),
            li <= n,
            n == lines@.len(),
            n == ls.len(),
            ls == text_lines(text@),
            forall|i: int| 0 <= i < lines@.len() ==> #[trigger] lines@[i]@ == ls[i],
            in_range(cx as int),
            in_range(cy as int),
            n > 0 ==> start_y == top,
            top == cy - (n - 1) / 2,
            grid@ == write_all(g0, block_text_writes(cx as int, top, ls, li as int)),
        decreases n - li,
    {
        let line = &lines[li];
        assert(line@ == ls[li as int]);
        let len = line.len();
        let start_x: i128 = cx as i128 - (len / 2) as i128;
        let y: i128 = start_y + li as i128;
        let ghost before = grid@;
        let ghost cw = chars_writes(start_x as int, y as int, line@);
        let mut j: usize = 0;
        while j < len
            invariant
                grid.wf(),
                j <= len,
                len == line@.len(),
                cw == chars_writes(start_x as int, y as int, line@),
                -0x2_0000_0000_0000_0000 <= start_x <= 0x2_0000_0000_0000_0000,
                grid@ == write_all(before, cw.take(j as int)),
            decreases len - j,
        {
            grid.set(start_x + j as i128, y, plain(line[j]));
            proof {
                assert(cw.take(j + 1) =~= cw.take(j as int).push(cw[j as int]));
                lemma_write_all_push(before, cw.take(j as int), cw[j as int]);
            }
            j = j + 1;
        }
        proof {
            assert(cw.take(j as int) =~= cw);
            lemma_write_all_concat(g0, block_text_writes(cx as int, top, ls, li as int), cw);
        }
        li = li + 1;
    }
}

} // verus!

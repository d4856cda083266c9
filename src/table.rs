//! Tables drawn as grids of bordered cells.

use vstd::prelude::*;
use crate::attrib::Attrib;
use crate::place::MAX_COORD;
use crate::render::Style;
use crate::text::{push_char, repeat};
use crate::tree::{Table, TableCell};

verus! {

/// A table drawn as a grid of bordered cells.
pub struct TableDiagram {
    pub data: Table<String>,
    pub attribs: Attrib,
}

/// Table glyphs: corners (0 to 3), horizontal (4), vertical (5), top and
/// bottom junctions (6, 7), left and right junctions (8, 9), crossing (10).
pub open spec fn table_palette(style: Style) -> Seq<char> {
    match style {
        Style::Ascii => seq!['+', '+', '+', '+', '-', '|', '+', '+', '+', '+', '+'],
        Style::Unicode => seq!['┌', '┐', '└', '┘', '─', '│', '┬', '┴', '├', '┤', '┼'],
    }
}

pub(crate) fn table_glyph(style: Style, k: usize) -> (r: char)
    requires
        k < 11,
    ensures
        r == table_palette(style)[k as int],
{
    match style {
        Style::Ascii => {
            if k == 4 {
                '-'
            } else if k == 5 {
                '|'
            } else {
                '+'
            }
        },
        Style::Unicode => {
            if k == 0 {
                '┌'
            } else if k == 1 {
                '┐'
            } else if k == 2 {
                '└'
            } else if k == 3 {
                '┘'
            } else if k == 4 {
                '─'
            } else if k == 5 {
                '│'
            } else if k == 6 {
                '┬'
            } else if k == 7 {
                '┴'
            } else if k == 8 {
                '├'
            } else if k == 9 {
                '┤'
            } else {
                '┼'
            }
        },
    }
}

/// The cell texts, row by row.
pub open spec fn rows_of(t: &Table<String>) -> Seq<Seq<Seq<char>>> {
    Seq::new(t.cells@.len(), |r: int| Seq::new(t.cells@[r]@.len(), |c: int| t.cells@[r]@[c].value@))
}

/// Width of column `c`: its longest text.
pub open spec fn col_width(rows: Seq<Seq<Seq<char>>>, c: int) -> nat
    decreases rows.len(),
{
    if rows.len() == 0 {
        0
    } else {
        let a = col_width(rows.drop_last(), c);
        let b = if c < rows.last().len() { rows.last()[c].len() } else { 0 };
        if a >= b {
            a
        } else {
            b
        }
    }
}

/// Horizontal runs two columns wider than each width, joined by `m`.
pub open spec fn segments(f: char, m: char, ws: Seq<usize>) -> Seq<char>
    decreases ws.len(),
{
    if ws.len() == 0 {
        seq![]
    } else if ws.len() == 1 {
        repeat(f, (ws[0] + 2) as nat)
    } else {
        segments(f, m, ws.drop_last()) + seq![m] + repeat(f, (ws.last() + 2) as nat)
    }
}

/// A border line: `l`, the runs, `r`; only `r` when there is no column.
pub open spec fn rule_line(l: char, f: char, m: char, r: char, ws: Seq<usize>) -> Seq<char> {
    if ws.len() == 0 {
        seq![r]
    } else {
        seq![l] + segments(f, m, ws) + seq![r]
    }
}

/// The first `k` cells of a text line: each a space, the text, and spaces
/// up to its column's width plus two, followed by a bar.
pub open spec fn cells_text(bar: char, row: Seq<Seq<char>>, ws: Seq<usize>, k: int) -> Seq<char>
    decreases k,
{
    if k <= 0 {
        seq![]
    } else {
        let cell = if k - 1 < row.len() {
            seq![' '] + row[k - 1] + repeat(' ', (ws[k - 1] + 1 - row[k - 1].len()) as nat)
        } else {
            repeat(' ', (ws[k - 1] + 2) as nat)
        };
        cells_text(bar, row, ws, k - 1) + cell + seq![bar]
    }
}

/// The first `k` rows of the table, each preceded by the top border (first
/// row) or a separator, then the bottom border.
pub open spec fn table_rows(p: Seq<char>, rows: Seq<Seq<Seq<char>>>, ws: Seq<usize>, k: int) -> Seq<char>
    decreases k,
{
    if k <= 0 {
        seq![]
    } else {
        let rule = if k == 1 {
            rule_line(p[0], p[4], p[6], p[1], ws)
        } else {
            rule_line(p[8], p[4], p[10], p[9], ws)
        };
        table_rows(p, rows, ws, k - 1) + rule + seq!['\n'] + seq![p[5]] + cells_text(p[5], rows[k - 1], ws, ws.len() as int)
            + seq!['\n']
    }
}

pub open spec fn table_text(p: Seq<char>, rows: Seq<Seq<Seq<char>>>, ws: Seq<usize>) -> Seq<char> {
    table_rows(p, rows, ws, rows.len() as int) + rule_line(p[2], p[4], p[7], p[3], ws) + seq!['\n']
}

pub(crate) fn push_str_chars(out: &mut String, s: &String)
    ensures
        final(out)@ == old(out)@ + s@,
{
    let n = s.as_str().unicode_len();
    let mut i: usize = 0;
    while i < n
        invariant
            n == s@.len(),
            i <= n,
            out@ == old(out)@ + s@.take(i as int),
        decreases n - i,
    {
        push_char(out, s.as_str().get_char(i));
        i = i + 1;
        assert(out@ =~= old(out)@ + s@.take(i as int));
    }
    assert(s@.take(n as int) =~= s@);
}

fn push_run(out: &mut String, c: char, n: usize)
    ensures
        final(out)@ == old(out)@ + repeat(c, n as nat),
{
    let mut i: usize = 0;
    while i < n
        invariant
            i <= n,
            out@ == old(out)@ + repeat(c, i as nat),
        decreases n - i,
    {
        push_char(out, c);
        i = i + 1;
        assert(out@ =~= old(out)@ + repeat(c, i as nat));
    }
}

pub(crate) fn push_rule(out: &mut String, l: char, f: char, m: char, r: char, ws: &Vec<usize>)
    requires
        forall|c: int| 0 <= c < ws@.len() ==> #[trigger] ws@[c] <= MAX_COORD,
    ensures
        final(out)@ == old(out)@ + rule_line(l, f, m, r, ws@),
{
    if ws.len() == 0 {
        push_char(out, r);
        return;
    }
    push_char(out, l);
    let ghost base = out@;
    let mut c: usize = 0;
    while c < ws.len()
        invariant
            forall|k: int| 0 <= k < ws@.len() ==> #[trigger] ws@[k] <= MAX_COORD,
            c <= ws@.len(),
            out@ == base + segments(f, m, ws@.take(c as int)),
        decreases ws@.len() - c,
    {
        proof {
            assert(ws@.take(c + 1).drop_last() =~= ws@.take(c as int));
        }
        if c > 0 {
            push_char(out, m);
        }
        push_run(out, f, ws[c] + 2);
        proof {
            if c == 0 {
                assert(out@ =~= base + segments(f, m, ws@.take(1)));
            } else {
                assert(out@ =~= base + segments(f, m, ws@.take(c + 1)));
            }
        }
        c = c + 1;
    }
    assert(ws@.take(c as int) =~= ws@);
    push_char(out, r);
    assert(out@ =~= old(out)@ + rule_line(l, f, m, r, ws@));
}

impl TableDiagram {
    pub open spec fn wf(&self) -> bool {
        &&& forall|r: int| 0 <= r < self.data.cells@.len() ==> (#[trigger] self.data.cells@[r])@.len()
            <= self.data.width
        &&& forall|r: int, c: int|
            0 <= r < self.data.cells@.len() && 0 <= c < self.data.cells@[r]@.len() ==> (#[trigger] self.data.cells@[r]@[c]).value@.len()
                <= MAX_COORD
    }

    /// Column widths: for each of the `width` columns, its longest text.
    pub fn col_widths(&self) -> (r: Vec<usize>)
        requires
            self.wf(),
        ensures
            r@.len() == self.data.width,
            forall|c: int| 0 <= c < r@.len() ==> #[trigger] r@[c] == col_width(rows_of(&self.data), c),
            forall|c: int| 0 <= c < r@.len() ==> #[trigger] r@[c] <= MAX_COORD,
    {
        let rows = Ghost(rows_of(&self.data));
        let mut ws: Vec<usize> = Vec::new();
        let mut c: usize = 0;
        while c < self.data.width
            invariant
                c <= self.data.width,
                ws@.len() == c,
                forall|k: int| 0 <= k < c ==> #[trigger] ws@[k] == 0,
            decreases self.data.width - c,
        {
            ws.push(0);
            c = c + 1;
        }
        let mut r: usize = 0;
        while r < self.data.cells.len()
            invariant
                self.wf(),
                rows@ == rows_of(&self.data),
                r <= self.data.cells@.len(),
                ws@.len() == self.data.width,
                forall|k: int| 0 <= k < ws@.len() ==> #[trigger] ws@[k] == col_width(rows@.take(r as int), k),
                forall|k: int| 0 <= k < ws@.len() ==> #[trigger] ws@[k] <= MAX_COORD,
            decreases self.data.cells@.len() - r,
        {
            let ghost before = ws@;
            let mut c: usize = 0;
            while c < ws.len()
                invariant
                    self.wf(),
                    rows@ == rows_of(&self.data),
                    r < self.data.cells@.len(),
                    c <= ws@.len(),
                    ws@.len() == before.len(),
                    before.len() == self.data.width,
                    forall|k: int| 0 <= k < ws@.len() ==> #[trigger] ws@[k] <= MAX_COORD,
                    forall|k: int| c <= k < ws@.len() ==> #[trigger] ws@[k] == before[k],
                    forall|k: int| 0 <= k < c ==> #[trigger] ws@[k] == {
                        let a = before[k] as nat;
                        let b = if k < rows@[r as int].len() { rows@[r as int][k].len() } else { 0 };
                        if a >= b { a } else { b }
                    },
                decreases ws@.len() - c,
            {
                if c < self.data.cells[r].len() {
                    let len = self.data.cells[r][c].value.as_str().unicode_len();
                    if len > ws[c] {
                        ws.set(c, len);
                    }
                }
                c = c + 1;
            }
            proof {
                assert(rows@.take(r + 1).drop_last() =~= rows@.take(r as int));
            }
            r = r + 1;
        }
        proof {
            assert(rows@.take(r as int) =~= rows@);
        }
        ws
    }

    /// The table as text: a top border, each row's text line (separated by
    /// separator lines), a bottom border, each line ended by a line feed.
    /// Each cell shows a space, its text, and spaces to its column's width
    /// plus two.
    pub fn write(&self) -> (r: String)
        requires
            self.wf(),
        ensures
            r@ == table_text(
                table_palette(self.attribs.style),
                rows_of(&self.data),
                Seq::new(self.data.width as nat, |c: int| col_width(rows_of(&self.data), c) as usize),
            ),
    {
        let ghost p = table_palette(self.attribs.style);
        let ghost rows = rows_of(&self.data);
        let st = self.attribs.style;
        let ws = self.col_widths();
        assert(ws@ =~= Seq::new(self.data.width as nat, |c: int| col_width(rows, c) as usize));
        let mut out = String::new();
        let mut r: usize = 0;
        while r < self.data.cells.len()
            invariant
                self.wf(),
                st == self.attribs.style,
                p == table_palette(st),
                rows == rows_of(&self.data),
                ws@.len() == self.data.width,
                forall|c: int| 0 <= c < ws@.len() ==> #[trigger] ws@[c] == col_width(rows, c),
                forall|c: int| 0 <= c < ws@.len() ==> #[trigger] ws@[c] <= MAX_COORD,
                r <= self.data.cells@.len(),
                out@ == table_rows(p, rows, ws@, r as int),
            decreases self.data.cells@.len() - r,
        {
            if r == 0 {
                push_rule(&mut out, table_glyph(st, 0), table_glyph(st, 4), table_glyph(st, 6), table_glyph(st, 1), &ws);
            } else {
                push_rule(&mut out, table_glyph(st, 8), table_glyph(st, 4), table_glyph(st, 10), table_glyph(st, 9), &ws);
            }
            push_char(&mut out, '\n');
            let bar = table_glyph(st, 5);
            push_char(&mut out, bar);
            let ghost base = out@;
            let mut c: usize = 0;
            while c < ws.len()
                invariant
                    self.wf(),
                    rows == rows_of(&self.data),
                    r < self.data.cells@.len(),
                    bar == p[5],
                    ws@.len() == self.data.width,
                    forall|k: int| 0 <= k < ws@.len() ==> #[trigger] ws@[k] == col_width(rows, k),
                    forall|k: int| 0 <= k < ws@.len() ==> #[trigger] ws@[k] <= MAX_COORD,
                    c <= ws@.len(),
                    out@ == base + cells_text(bar, rows[r as int], ws@, c as int),
                decreases ws@.len() - c,
            {
                if c < self.data.cells[r].len() {
                    let v = &self.data.cells[r][c].value;
                    let len = v.as_str().unicode_len();
                    proof {
                        lemma_col_width_ge(rows, r as int, c as int);
                        assert(rows[r as int][c as int] == v@);
                    }
                    push_char(&mut out, ' ');
                    push_str_chars(&mut out, v);
                    push_run(&mut out, ' ', ws[c] + 1 - len);
                } else {
                    push_run(&mut out, ' ', ws[c] + 2);
                }
                push_char(&mut out, bar);
                proof {
                    assert(rows[r as int].len() == self.data.cells@[r as int]@.len());
                    assert(out@ =~= base + cells_text(bar, rows[r as int], ws@, c + 1));
                }
                c = c + 1;
            }
            push_char(&mut out, '\n');
            proof {
                assert(out@ =~= table_rows(p, rows, ws@, r + 1));
            }
            r = r + 1;
        }
        push_rule(&mut out, table_glyph(st, 2), table_glyph(st, 4), table_glyph(st, 7), table_glyph(st, 3), &ws);
        push_char(&mut out, '\n');
        out
    }
}

proof fn lemma_col_width_ge(rows: Seq<Seq<Seq<char>>>, r: int, c: int)
    requires
        0 <= r < rows.len(),
        0 <= c < rows[r].len(),
    ensures
        col_width(rows, c) >= rows[r][c].len(),
    decreases rows.len(),
{
    if r < rows.len() - 1 {
        lemma_col_width_ge(rows.drop_last(), r, c);
    }
}

} // verus!

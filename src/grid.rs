//! Fixed-size grids of small cells.

use vstd::prelude::*;
use crate::attrib::Attrib;
use crate::table::{push_rule, push_str_chars, rows_of, rule_line, table_glyph, table_palette};
use crate::place::MAX_COORD;
use crate::text::{centre_chars, push_char, repeat};
use crate::tree::{Table, TableCell};
use vstd::string::StringExecFns;

verus! {

/// Columns each grid cell takes, and the most characters it may hold.
pub const MAX_CELL_WIDTH: usize = 3;

/// A fixed grid of small cells.
pub struct GridDiagram {
    pub data: Table<String>,
    pub attribs: Attrib,
}

/// Why a grid could not be built.
#[derive(Clone, Copy, Debug, PartialEq, Eq, Structural)]
pub enum GridError {
    /// Width or height is zero.
    MissingSize,
    /// The text at this 1-based (column, row) is longer than a cell.
    CellTooLong(usize, usize),
    /// This 1-based (column, row) is assigned more than once.
    AssignedTwice(usize, usize),
    /// This 1-based (column, row) lies outside the grid.
    OutOfGrid(usize, usize),
}

/// The text a grid shows at 1-based (`x`, `y`): the assigned one, else a
/// space.
pub open spec fn grid_cell(assigns: Seq<((usize, usize), String)>, x: int, y: int) -> Seq<char>
    decreases assigns.len(),
{
    if assigns.len() == 0 {
        seq![' ']
    } else if assigns.last().0.0 == x && assigns.last().0.1 == y {
        assigns.last().1@
    } else {
        grid_cell(assigns.drop_last(), x, y)
    }
}

/// `s` centred in `w` columns with spaces, the left part the smaller half.
pub open spec fn centred(s: Seq<char>, w: nat) -> Seq<char> {
    if s.len() > w {
        s
    } else {
        repeat(' ', ((w - s.len()) / 2) as nat) + s + repeat(' ', ((w - s.len()) - (w - s.len()) / 2) as nat)
    }
}

/// The first `k` cells of a grid line, each centred and followed by a bar.
pub open spec fn grid_cells_text(bar: char, row: Seq<Seq<char>>, k: int) -> Seq<char>
    decreases k,
{
    if k <= 0 {
        seq![]
    } else {
        grid_cells_text(bar, row, k - 1) + centred(row[k - 1], MAX_CELL_WIDTH as nat) + seq![bar]
    }
}

/// The first `k` rows with their top border or separators.
pub open spec fn grid_rows(p: Seq<char>, rows: Seq<Seq<Seq<char>>>, w: nat, k: int) -> Seq<char>
    decreases k,
{
    if k <= 0 {
        seq![]
    } else {
        let ones = Seq::new(w, |i: int| 1usize);
        let rule = if k == 1 {
            rule_line(p[0], p[4], p[6], p[1], ones)
        } else {
            rule_line(p[8], p[4], p[10], p[9], ones)
        };
        grid_rows(p, rows, w, k - 1) + rule + seq!['\n'] + seq![p[5]] + grid_cells_text(p[5], rows[k - 1], w as int)
            + seq!['\n']
    }
}

pub open spec fn grid_text(p: Seq<char>, rows: Seq<Seq<Seq<char>>>, w: nat) -> Seq<char> {
    grid_rows(p, rows, w, rows.len() as int) + rule_line(p[2], p[4], p[7], p[3], Seq::new(w, |i: int| 1usize))
        + seq!['\n']
}

impl GridDiagram {
    pub open spec fn wf(&self) -> bool {
        &&& self.data.width >= 1
        &&& forall|r: int| 0 <= r < self.data.cells@.len() ==> (#[trigger] self.data.cells@[r])@.len()
            == self.data.width
    }

    /// Builds a `width` by `height` grid from 1-based (column, row)
    /// assignments; unassigned cells hold a space.
    pub fn from_cells(width: usize, height: usize, assigns: &Vec<((usize, usize), String)>, attribs: Attrib) -> (r: Result<GridDiagram, GridError>)
        ensures
            (width == 0 || height == 0) ==> r == Err::<GridDiagram, GridError>(GridError::MissingSize),
            r matches Err(GridError::CellTooLong(x, y)) ==> exists|i: int|
                0 <= i < assigns@.len() && (#[trigger] assigns@[i]).0 == (x, y) && assigns@[i].1@.len() > MAX_CELL_WIDTH,
            r matches Err(GridError::AssignedTwice(x, y)) ==> exists|i: int, j: int|
                0 <= i < j < assigns@.len() && (#[trigger] assigns@[i]).0 == (x, y) && (#[trigger] assigns@[j]).0 == (x, y),
            r matches Err(GridError::OutOfGrid(x, y)) ==> exists|i: int|
                0 <= i < assigns@.len() && (#[trigger] assigns@[i]).0 == (x, y) && !(1 <= x <= width && 1 <= y <= height),
            (width > 0 && height > 0 && forall|i: int| 0 <= i < assigns@.len() ==> {
                let ((x, y), s) = #[trigger] assigns@[i];
                &&& 1 <= x <= width && 1 <= y <= height
                &&& s@.len() <= MAX_CELL_WIDTH
            } && forall|i: int, j: int| 0 <= i < j < assigns@.len() ==> (#[trigger] assigns@[i]).0 != (#[trigger] assigns@[j]).0) ==> r is Ok,
            r matches Ok(g) ==> {
                &&& g.wf()
                &&& g.data.width == width && g.data.height == height
                &&& g.attribs == attribs
                &&& g.data.cells@.len() == height
                &&& forall|y: int, x: int| 0 <= y < height && 0 <= x < width ==> (#[trigger] g.data.cells@[y]@[x]).value@
                    == grid_cell(assigns@, x + 1, y + 1)
            },
    {
        if width == 0 || height == 0 {
            return Err(GridError::MissingSize);
        }
        let mut i: usize = 0;
        while i < assigns.len()
            invariant
                width > 0 && height > 0,
                i <= assigns@.len(),
                forall|k: int| 0 <= k < i ==> {
                    let ((x, y), s) = #[trigger] assigns@[k];
                    &&& 1 <= x <= width && 1 <= y <= height
                    &&& s@.len() <= MAX_CELL_WIDTH
                },
                forall|k: int, j: int| 0 <= k < j < i ==> (#[trigger] assigns@[k]).0 != (#[trigger] assigns@[j]).0,
            decreases assigns@.len() - i,
        {
            let (x, y) = assigns[i].0;
            if assigns[i].1.as_str().unicode_len() > MAX_CELL_WIDTH {
                return Err(GridError::CellTooLong(x, y));
            }
            if x < 1 || x > width || y < 1 || y > height {
                return Err(GridError::OutOfGrid(x, y));
            }
            let mut k: usize = 0;
            while k < i
                invariant
                    width > 0 && height > 0,
                    i < assigns@.len(),
                    (x, y) == assigns@[i as int].0,
                    k <= i,
                    forall|j: int| 0 <= j < k ==> (#[trigger] assigns@[j]).0 != (x, y),
                decreases i - k,
            {
                if assigns[k].0.0 == x && assigns[k].0.1 == y {
                    return Err(GridError::AssignedTwice(x, y));
                }
                k = k + 1;
            }
            i = i + 1;
        }
        let mut cells: Vec<Vec<TableCell<String>>> = Vec::new();
        let mut y: usize = 0;
        while y < height
            invariant
                y <= height,
                cells@.len() == y,
                forall|r: int| 0 <= r < y ==> (#[trigger] cells@[r])@.len() == width,
                forall|r: int, c: int| 0 <= r < y && 0 <= c < width ==> (#[trigger] cells@[r]@[c]).value@
                    == grid_cell(assigns@, c + 1, r + 1),
            decreases height - y,
        {
            let mut row: Vec<TableCell<String>> = Vec::new();
            let mut x: usize = 0;
            while x < width
                invariant
                    y < height,
                    x <= width,
                    row@.len() == x,
                    forall|c: int| 0 <= c < x ==> (#[trigger] row@[c]).value@ == grid_cell(assigns@, c + 1, y + 1),
                decreases width - x,
            {
                let v = cell_text(assigns, x + 1, y + 1);
                row.push(TableCell { value: v });
                x = x + 1;
            }
            cells.push(row);
            y = y + 1;
        }
        Ok(GridDiagram { data: Table { cells, width, height }, attribs })
    }
}

fn cell_text(assigns: &Vec<((usize, usize), String)>, x: usize, y: usize) -> (r: String)
    ensures
        r@ == grid_cell(assigns@, x as int, y as int),
{
    let mut k = assigns.len();
    assert(assigns@.take(k as int) =~= assigns@);
    while k > 0
        invariant
            k <= assigns@.len(),
            grid_cell(assigns@, x as int, y as int) == grid_cell(assigns@.take(k as int), x as int, y as int),
        decreases k,
    {
        proof {
            assert(assigns@.take(k as int).drop_last() =~= assigns@.take(k - 1));
        }
        if assigns[k - 1].0.0 == x && assigns[k - 1].0.1 == y {
            return assigns[k - 1].1.clone();
        }
        k = k - 1;
    }
    proof {
        reveal_strlit(" ");
    }
    let r = String::from_str(" ");
    assert(r@ =~= seq![' ']);
    r
}

impl GridDiagram {
    /// The grid as text: a top border, each row's line (cells centred in
    /// `MAX_CELL_WIDTH` columns between bars) with separator lines between
    /// rows, and a bottom border, each line ended by a line feed.
    pub fn write(&self) -> (r: String)
        requires
            self.wf(),
        ensures
            r@ == grid_text(table_palette(self.attribs.style), rows_of(&self.data), self.data.width as nat),
    {
        let ghost p = table_palette(self.attribs.style);
        let ghost rows = rows_of(&self.data);
        let st = self.attribs.style;
        let w = self.data.width;
        let mut ones: Vec<usize> = Vec::new();
        let mut i: usize = 0;
        while i < w
            invariant
                i <= w,
                ones@.len() == i,
                forall|k: int| 0 <= k < i ==> #[trigger] ones@[k] == 1usize,
            decreases w - i,
        {
            ones.push(1);
            i = i + 1;
        }
        assert(ones@ =~= Seq::new(w as nat, |k: int| 1usize));
        let mut out = String::new();
        let mut r: usize = 0;
        while r < self.data.cells.len()
            invariant
                self.wf(),
                w == self.data.width,
                st == self.attribs.style,
                p == table_palette(st),
                rows == rows_of(&self.data),
                ones@ == Seq::new(w as nat, |k: int| 1usize),
                r <= self.data.cells@.len(),
                out@ == grid_rows(p, rows, w as nat, r as int),
            decreases self.data.cells@.len() - r,
        {
            if r == 0 {
                push_rule(&mut out, table_glyph(st, 0), table_glyph(st, 4), table_glyph(st, 6), table_glyph(st, 1), &ones);
            } else {
                push_rule(&mut out, table_glyph(st, 8), table_glyph(st, 4), table_glyph(st, 10), table_glyph(st, 9), &ones);
            }
            push_char(&mut out, '\n');
            let bar = table_glyph(st, 5);
            push_char(&mut out, bar);
            let ghost base = out@;
            let mut c: usize = 0;
            while c < w
                invariant
                    self.wf(),
                    w == self.data.width,
                    rows == rows_of(&self.data),
                    r < self.data.cells@.len(),
                    c <= w,
                    out@ == base + grid_cells_text(bar, rows[r as int], c as int),
                decreases w - c,
            {
                let cell = centre_chars(self.data.cells[r][c].value.as_str(), MAX_CELL_WIDTH, ' ', ' ');
                proof {
                    assert(rows[r as int][c as int] == self.data.cells@[r as int]@[c as int].value@);
                }
                push_str_chars(&mut out, &cell);
                push_char(&mut out, bar);
                proof {
                    assert(out@ =~= base + grid_cells_text(bar, rows[r as int], c + 1));
                }
                c = c + 1;
            }
            push_char(&mut out, '\n');
            proof {
                assert(out@ =~= grid_rows(p, rows, w as nat, r + 1));
            }
            r = r + 1;
        }
        push_rule(&mut out, table_glyph(st, 2), table_glyph(st, 4), table_glyph(st, 7), table_glyph(st, 3), &ones);
        push_char(&mut out, '\n');
        out
    }
}

} // verus!

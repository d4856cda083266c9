//! Painting boxes and connectors on a character grid.

use vstd::prelude::*;
use crate::graph::{Graph, Vertex};
use crate::route::{Connection, ROUTE_LIMIT, lane_total, lanes_above, lanes_ok, lemma_lane_total_prefix};
use crate::graph::MAX_ITEMS;
use crate::place::{MAX_COORD, ROW_HEIGHT};

verus! {

/// Glyph set for drawing.
#[derive(Clone, Copy, Debug, PartialEq, Eq, Structural)]
pub enum Style {
    Ascii,
    Unicode,
}

/// The sixteen glyphs of a style: box corners and borders (0 to 7), a
/// connector's departure (8), vertical run (9), horizontal run (10), the
/// bend corners (11 to 14) and the arrow head (15).
pub open spec fn palette(style: Style) -> Seq<char> {
    match style {
        Style::Ascii => seq!['+', '-', '+', '|', '|', '+', '-', '+', '+', '|', '-', '+', '+', '+', '+', 'V'],
        Style::Unicode => seq!['┌', '─', '┐', '│', '│', '└', '─', '┘', '┬', '│', '─', '└', '┐', '┌', '┘', 'V'],
    }
}

pub fn glyph(style: Style, k: usize) -> (r: char)
    requires
        k < 16,
    ensures
        r == palette(style)[k as int],
{
    match style {
        Style::Ascii => {
            if k == 0 || k == 2 || k == 5 || k == 7 || k == 8 || k == 11 || k == 12 || k == 13 || k == 14 {
                '+'
            } else if k == 1 || k == 6 || k == 10 {
                '-'
            } else if k == 15 {
                'V'
            } else {
                '|'
            }
        },
        Style::Unicode => {
            if k == 0 || k == 13 {
                '┌'
            } else if k == 1 || k == 6 || k == 10 {
                '─'
            } else if k == 2 || k == 12 {
                '┐'
            } else if k == 5 || k == 11 {
                '└'
            } else if k == 7 || k == 14 {
                '┘'
            } else if k == 8 {
                '┬'
            } else if k == 15 {
                'V'
            } else {
                '│'
            }
        },
    }
}

/// A cell may hold a space, a glyph of the style, or a label character.
pub open spec fn allowed(style: Style, labels: Seq<String>, c: char) -> bool {
    c == ' ' || palette(style).contains(c) || exists|v: int, i: int|
        0 <= v < labels.len() && 0 <= i < labels[v]@.len() && (#[trigger] labels[v]@[i]) == c
}

/// A `height` by `width` grid of allowed characters.
pub open spec fn canvas_ok(buf: Seq<Vec<char>>, height: int, width: int, style: Style, labels: Seq<String>) -> bool {
    &&& buf.len() == height
    &&& forall|r: int| 0 <= r < height ==> (#[trigger] buf[r])@.len() == width
    &&& forall|r: int, c: int| 0 <= r < height && 0 <= c < width ==> allowed(style, labels, #[trigger] buf[r]@[c])
}

/// Cell (`r`, `c`) lies in the box of `a`.
pub open spec fn in_box(a: Vertex, r: int, c: int) -> bool {
    a.x <= c < a.x + a.width && a.y <= r < a.y + a.height
}

/// A box that draws within itself: a placeholder is one cell without a
/// label; a real vertex has at least three rows and room for its label
/// two columns inside each border.
pub open spec fn drawable(a: Vertex, label: Seq<char>) -> bool {
    if a.is_dummy {
        a.width == 1 && a.height == 1 && label.len() == 0
    } else {
        a.height >= 3 && label.len() + 4 <= a.width
    }
}

/// Glyph of cell (`r`, `c`) of the box of `a`: a placeholder's vertical
/// glyph; else the label on the second row from the third column, the
/// corners, the top and bottom borders, the side borders, and inside
/// whatever was there (`under`).
pub open spec fn box_glyph(style: Style, a: Vertex, label: Seq<char>, r: int, c: int, under: char) -> char {
    let p = palette(style);
    let (x, y) = (a.x as int, a.y as int);
    let right = x + a.width - 1;
    let bottom = y + a.height - 1;
    if a.is_dummy {
        p[9]
    } else if r == y + 1 && x + 2 <= c < x + 2 + label.len() {
        label[c - x - 2]
    } else if r == y && c == x {
        p[0]
    } else if r == y && c == right {
        p[2]
    } else if r == bottom && c == x {
        p[5]
    } else if r == bottom && c == right {
        p[7]
    } else if r == y {
        p[1]
    } else if r == bottom {
        p[6]
    } else if c == x {
        p[3]
    } else if c == right {
        p[4]
    } else {
        under
    }
}

/// The box of `a` part drawn: corners, borders up to column `cx`, sides
/// above row `ry`, the first `li` label characters; `old` elsewhere.
pub open spec fn part_drawn(style: Style, a: Vertex, label: Seq<char>, r: int, c: int, cx: int, ry: int, li: int, old: char) -> char {
    let p = palette(style);
    let (x, y) = (a.x as int, a.y as int);
    let right = x + a.width - 1;
    let bottom = y + a.height - 1;
    let corner = (r == y || r == bottom) && (c == x || c == right);
    if r == y + 1 && x + 2 <= c < x + 2 + li {
        label[c - x - 2]
    } else if corner && a.is_dummy {
        p[9]
    } else if corner {
        if r == y && c == x {
            p[0]
        } else if r == y {
            p[2]
        } else if c == x {
            p[5]
        } else {
            p[7]
        }
    } else if (r == y || r == bottom) && x < c < cx {
        if r == y {
            p[1]
        } else {
            p[6]
        }
    } else if y < r < ry && (c == x || c == right) {
        if c == x {
            p[3]
        } else {
            p[4]
        }
    } else {
        old
    }
}

/// The boxes of the first `k` vertices painted in order over a blank
/// canvas: the character at (`r`, `c`).
pub open spec fn picture(style: Style, vs: Seq<Vertex>, labels: Seq<String>, k: int, r: int, c: int) -> char
    decreases k,
{
    if k <= 0 {
        ' '
    } else if in_box(vs[k - 1], r, c) {
        box_glyph(style, vs[k - 1], labels[k - 1]@, r, c, picture(style, vs, labels, k - 1, r, c))
    } else {
        picture(style, vs, labels, k - 1, r, c)
    }
}

/// No boundary has a connector.
pub open spec fn no_connectors(ct: Seq<Vec<Connection>>) -> bool {
    forall|k: int| 0 <= k < ct.len() ==> (#[trigger] ct[k])@.len() == 0
}

/// The grid's rows as character sequences.
pub open spec fn grid(buf: Seq<Vec<char>>) -> Seq<Seq<char>> {
    Seq::new(buf.len(), |r: int| buf[r]@)
}

/// The character at (`r`, `c`), or `#` outside the grid.
pub open spec fn at(g: Seq<Seq<char>>, r: int, c: int) -> char {
    if 0 <= r < g.len() && 0 <= c < g[r].len() { g[r][c] } else { '#' }
}

/// `g` with `ch` written at (`r`, `c`) when that cell exists.
pub open spec fn set_cell(g: Seq<Seq<char>>, r: int, c: int, ch: char) -> Seq<Seq<char>> {
    if 0 <= r < g.len() && 0 <= c < g[r].len() { g.update(r, g[r].update(c, ch)) } else { g }
}

/// Fills blank cells of column `x` with `ch` downward from row `y`; returns
/// the grid and the first row not filled.
pub open spec fn run_down(g: Seq<Seq<char>>, x: int, y: int, ch: char) -> (Seq<Seq<char>>, int)
    decreases g.len() - y,
{
    if 0 <= y < g.len() && at(g, y, x) == ' ' {
        run_down(set_cell(g, y, x, ch), x, y + 1, ch)
    } else {
        (g, y)
    }
}

/// Fills blank cells of column `x` with `ch` upward from row `y - 1`;
/// returns the grid and the last row filled (or `y`).
pub open spec fn run_up(g: Seq<Seq<char>>, x: int, y: int, ch: char) -> (Seq<Seq<char>>, int)
    decreases y,
{
    if y > 0 && at(g, y - 1, x) == ' ' {
        run_up(set_cell(g, y - 1, x, ch), x, y - 1, ch)
    } else {
        (g, y)
    }
}

/// A straight connector: the run below row `y` in column `x`, the
/// departure glyph on row `y` and the arrow head where the run stopped,
/// each head left out at a placeholder end.
pub open spec fn straight_paint(g: Seq<Seq<char>>, p: Seq<char>, x: int, y: int, df: bool, dt: bool) -> Seq<Seq<char>> {
    let (g1, yy) = run_down(g, x, y + 1, p[9]);
    let g2 = if !df { set_cell(g1, y, x, p[8]) } else { g1 };
    if !dt { set_cell(g2, yy, x, p[15]) } else { g2 }
}

/// A bent connector with its lane on `row`: the two corners, the leg up
/// from the first corner with its departure glyph, the leg down from the
/// second with its arrow head.
pub open spec fn bent_paint(g: Seq<Seq<char>>, p: Seq<char>, x1: int, x2: int, row: int, df: bool, dt: bool) -> Seq<Seq<char>> {
    let g1 = if x1 < x2 {
        set_cell(set_cell(g, row, x1, p[11]), row, x2, p[12])
    } else {
        set_cell(set_cell(g, row, x1, p[14]), row, x2, p[13])
    };
    let (g2, yu) = run_up(g1, x1, row, p[9]);
    let g3 = if !df && yu > 0 { set_cell(g2, yu - 1, x1, p[8]) } else { g2 };
    let (g4, yd) = run_down(g3, x2, row + 1, p[9]);
    if !dt { set_cell(g4, yd, x2, p[15]) } else { g4 }
}

/// Blank cells of row `row` from column `h` up to `b` filled with `ch`.
pub open spec fn hrun(g: Seq<Seq<char>>, row: int, h: int, b: int, ch: char) -> Seq<Seq<char>>
    decreases b - h,
{
    if h < b {
        hrun(if at(g, row, h) == ' ' { set_cell(g, row, h, ch) } else { g }, row, h + 1, b, ch)
    } else {
        g
    }
}

/// Row of lane `lane` of boundary `k`: below the level rows and the lanes
/// of the boundaries above, if it lies in range.
pub open spec fn lane_row_of(sp: Seq<(i64, i64)>, k: int, lane: i64) -> Option<int> {
    let d = lane - sp[k].0;
    if d < 0 || d > MAX_ITEMS {
        None
    } else {
        Some(ROW_HEIGHT * (k + 1) + lane_total(sp.take(k)) + d)
    }
}

/// What one connector paints in the given pass (0: straight runs, 1:
/// bent legs and corners, 2: bent horizontal runs).
pub open spec fn paint_one(g: Seq<Seq<char>>, p: Seq<char>, sp: Seq<(i64, i64)>, k: int, c: Connection, pass: int) -> Seq<Seq<char>> {
    match c {
        Connection::Straight { x, y, dummy_from, dummy_to, .. } => if pass == 0 {
            straight_paint(g, p, x as int, y as int, dummy_from, dummy_to)
        } else {
            g
        },
        Connection::Bent { x_from, x_to, lane, dummy_from, dummy_to, .. } => match lane_row_of(sp, k, lane) {
            Some(row) => if pass == 1 {
                bent_paint(g, p, x_from as int, x_to as int, row, dummy_from, dummy_to)
            } else if pass == 2 {
                let (a, b) = if x_from < x_to { (x_from as int, x_to as int) } else { (x_to as int, x_from as int) };
                hrun(g, row, if a < b { a + 1 } else { b }, b, p[10])
            } else {
                g
            },
            None => g,
        },
    }
}

pub open spec fn paint_row(g: Seq<Seq<char>>, p: Seq<char>, sp: Seq<(i64, i64)>, k: int, row: Seq<Connection>, j: int, pass: int) -> Seq<Seq<char>>
    decreases j,
{
    if j <= 0 { g } else { paint_one(paint_row(g, p, sp, k, row, j - 1, pass), p, sp, k, row[j - 1], pass) }
}

/// One pass over the connectors of boundaries `0 .. k`, in order.
pub open spec fn paint_pass(g: Seq<Seq<char>>, p: Seq<char>, sp: Seq<(i64, i64)>, ct: Seq<Vec<Connection>>, k: int, pass: int) -> Seq<Seq<char>>
    decreases k,
{
    if k <= 0 { g } else { paint_row(paint_pass(g, p, sp, ct, k - 1, pass), p, sp, k - 1, ct[k - 1]@, ct[k - 1]@.len() as int, pass) }
}

/// The painted boxes of all vertices on a blank `height` by `width` grid.
pub open spec fn boxes(style: Style, vs: Seq<Vertex>, labels: Seq<String>, height: int, width: int) -> Seq<Seq<char>> {
    Seq::new(height as nat, |r: int| Seq::new(width as nat, |c: int| picture(style, vs, labels, vs.len() as int, r, c)))
}

/// The whole drawing: boxes, then straight runs, then bent legs and
/// corners, then the bent connectors' horizontal runs.
pub open spec fn drawing(style: Style, vs: Seq<Vertex>, labels: Seq<String>, ct: Seq<Vec<Connection>>, sp: Seq<(i64, i64)>, height: int, width: int) -> Seq<Seq<char>> {
    let p = palette(style);
    let n = ct.len() as int;
    paint_pass(paint_pass(paint_pass(boxes(style, vs, labels, height, width), p, sp, ct, n, 0), p, sp, ct, n, 1), p, sp, ct, n, 2)
}

fn blank(height: usize, width: usize) -> (r: Vec<Vec<char>>)
    ensures
        r@.len() == height,
        forall|i: int| 0 <= i < height ==> (#[trigger] r@[i])@.len() == width,
        forall|i: int, j: int| 0 <= i < height && 0 <= j < width ==> #[trigger] r@[i]@[j] == ' ',
{
    let mut r: Vec<Vec<char>> = Vec::new();
    let mut i: usize = 0;
    while i < height
        invariant
            i <= height,
            r@.len() == i,
            forall|a: int| 0 <= a < i ==> (#[trigger] r@[a])@.len() == width,
            forall|a: int, j: int| 0 <= a < i && 0 <= j < width ==> #[trigger] r@[a]@[j] == ' ',
        decreases height - i,
    {
        let mut row: Vec<char> = Vec::new();
        let mut j: usize = 0;
        while j < width
            invariant
                j <= width,
                row@.len() == j,
                forall|b: int| 0 <= b < j ==> #[trigger] row@[b] == ' ',
            decreases width - j,
        {
            row.push(' ');
            j = j + 1;
        }
        r.push(row);
        i = i + 1;
    }
    r
}

/// The character at (`row`, `col`), or a non-space when outside the grid.
fn cell(buf: &Vec<Vec<char>>, row: usize, col: usize) -> (r: char)
    ensures
        row < buf@.len() && col < buf@[row as int]@.len() ==> r == buf@[row as int]@[col as int],
        !(row < buf@.len() && col < buf@[row as int]@.len()) ==> r != ' ',
        r == at(grid(buf@), row as int, col as int),
{
    if row < buf.len() && col < buf[row].len() {
        buf[row][col]
    } else {
        '#'
    }
}

/// Writes `c` at (`row`, `col`) when that cell exists.
fn put(buf: &mut Vec<Vec<char>>, row: usize, col: usize, c: char, Ghost(height): Ghost<int>, Ghost(width): Ghost<int>, Ghost(style): Ghost<Style>, Ghost(labels): Ghost<Seq<String>>)
    requires
        canvas_ok(old(buf)@, height, width, style, labels),
        allowed(style, labels, c),
    ensures
        canvas_ok(final(buf)@, height, width, style, labels),
        forall|r: int, k: int|
            0 <= r < height && 0 <= k < width ==> #[trigger] final(buf)@[r]@[k] == if r == row && k == col {
                c
            } else {
                old(buf)@[r]@[k]
            },
        grid(final(buf)@) == set_cell(grid(old(buf)@), row as int, col as int, c),
{
    if row < buf.len() && col < buf[row].len() {
        buf[row].set(col, c);
        assert(grid(buf@) =~~= set_cell(grid(old(buf)@), row as int, col as int, c));
        assert forall|r: int, k: int|
            0 <= r < height && 0 <= k < width implies #[trigger] buf@[r]@[k] == if r == row && k == col {
                c
            } else {
                old(buf)@[r]@[k]
            } by {
            if r != row {
                assert(buf@[r] == old(buf)@[r]);
            }
        }
        assert(canvas_ok(buf@, height, width, style, labels)) by {
            assert forall|a: int, b: int| 0 <= a < height && 0 <= b < width implies allowed(style, labels, #[trigger] buf@[a]@[b]) by {
                if a == row && b != col {
                    assert(buf@[a]@[b] == old(buf)@[a]@[b]);
                }
            }
        }
    } else {
        assert(grid(buf@) =~~= set_cell(grid(old(buf)@), row as int, col as int, c));
    }
}

proof fn lemma_palette_allowed(style: Style, labels: Seq<String>, k: int)
    requires
        0 <= k < 16,
    ensures
        allowed(style, labels, palette(style)[k]),
{
    assert(palette(style).contains(palette(style)[k]));
}

fn pen(style: Style, k: usize, Ghost(labels): Ghost<Seq<String>>) -> (r: char)
    requires
        k < 16,
    ensures
        r == palette(style)[k as int],
        allowed(style, labels, r),
{
    proof {
        lemma_palette_allowed(style, labels, k as int);
    }
    glyph(style, k)
}

/// Draws vertex `v` with label `labels[v]`: a placeholder as one vertical
/// glyph at its top and bottom row; a real vertex as a bordered box with
/// its label on the second row from the third column.
fn draw_vertex(buf: &mut Vec<Vec<char>>, a: Vertex, label: &String, style: Style, Ghost(height): Ghost<int>, Ghost(width): Ghost<int>, Ghost(labels): Ghost<Seq<String>>, Ghost(v): Ghost<int>)
    requires
        canvas_ok(old(buf)@, height, width, style, labels),
        0 <= v < labels.len(),
        labels[v] == *label,
        a.x + a.width <= ROUTE_LIMIT,
        a.y + a.height <= ROUTE_LIMIT,
        label@.len() <= MAX_COORD,
    ensures
        canvas_ok(final(buf)@, height, width, style, labels),
        drawable(a, label@) ==> forall|r: int, c: int|
            0 <= r < height && 0 <= c < width ==> #[trigger] final(buf)@[r]@[c] == if in_box(a, r, c) {
                box_glyph(style, a, label@, r, c, old(buf)@[r]@[c])
            } else {
                old(buf)@[r]@[c]
            },
{
    let ghost b0 = buf@;
    let (x, y, w, h) = (a.x, a.y, a.width, a.height);
    if w == 0 || h == 0 {
        return;
    }
    let bottom = y + h - 1;
    let right = x + w - 1;
    if a.is_dummy {
        let c = pen(style, 9, Ghost(labels));
        put(buf, y, x, c, Ghost(height), Ghost(width), Ghost(style), Ghost(labels));
        put(buf, bottom, x, c, Ghost(height), Ghost(width), Ghost(style), Ghost(labels));
        put(buf, y, right, c, Ghost(height), Ghost(width), Ghost(style), Ghost(labels));
        put(buf, bottom, right, c, Ghost(height), Ghost(width), Ghost(style), Ghost(labels));
    } else {
        put(buf, y, x, pen(style, 0, Ghost(labels)), Ghost(height), Ghost(width), Ghost(style), Ghost(labels));
        put(buf, y, right, pen(style, 2, Ghost(labels)), Ghost(height), Ghost(width), Ghost(style), Ghost(labels));
        put(buf, bottom, x, pen(style, 5, Ghost(labels)), Ghost(height), Ghost(width), Ghost(style), Ghost(labels));
        put(buf, bottom, right, pen(style, 7, Ghost(labels)), Ghost(height), Ghost(width), Ghost(style), Ghost(labels));
    }
    assert(drawable(a, label@) ==> forall|r: int, c: int|
        0 <= r < height && 0 <= c < width ==> #[trigger] buf@[r]@[c] == part_drawn(style, a, label@, r, c, x + 1, y + 1, 0, b0[r]@[c]));
    let mut cx = x + 1;
    while cx < right
        invariant
            canvas_ok(buf@, height, width, style, labels),
            right < ROUTE_LIMIT,
            bottom < ROUTE_LIMIT,
            right == x + w - 1,
            bottom == y + h - 1,
            x + 1 <= cx,
            x + 1 <= right ==> cx <= right,
            cx <= right || cx == x + 1,
            w >= 1 && h >= 1,
            b0 == old(buf)@,
            canvas_ok(b0, height, width, style, labels),
            x == a.x && y == a.y && w == a.width && h == a.height,
            drawable(a, label@) ==> forall|r: int, c: int|
                0 <= r < height && 0 <= c < width ==> #[trigger] buf@[r]@[c] == part_drawn(style, a, label@, r, c, cx as int, y + 1, 0, b0[r]@[c]),
        decreases right - cx,
    {
        let t = pen(style, 1, Ghost(labels));
        let bt = pen(style, 6, Ghost(labels));
        let ghost pb = buf@;
        put(buf, y, cx, t, Ghost(height), Ghost(width), Ghost(style), Ghost(labels));
        let ghost pb1 = buf@;
        put(buf, bottom, cx, bt, Ghost(height), Ghost(width), Ghost(style), Ghost(labels));
        proof {
            if drawable(a, label@) {
                assert forall|r: int, c: int|
                    0 <= r < height && 0 <= c < width implies #[trigger] buf@[r]@[c] == part_drawn(style, a, label@, r, c, cx + 1, y + 1, 0, b0[r]@[c]) by {
                    assert(pb[r]@[c] == part_drawn(style, a, label@, r, c, cx as int, y + 1, 0, b0[r]@[c]));
                    assert(pb1[r]@[c] == if r == y && c == cx { t } else { pb[r]@[c] });

                }
            }
        }
        cx = cx + 1;
    }
    proof {
        if drawable(a, label@) {
            assert forall|r: int, c: int|
                0 <= r < height && 0 <= c < width implies #[trigger] buf@[r]@[c] == part_drawn(style, a, label@, r, c, right as int, y + 1, 0, b0[r]@[c]) by {
                assert(buf@[r]@[c] == part_drawn(style, a, label@, r, c, cx as int, y + 1, 0, b0[r]@[c]));
            }
        }
    }
    let mut ry = y + 1;
    while ry < bottom
        invariant
            canvas_ok(buf@, height, width, style, labels),
            right < ROUTE_LIMIT,
            bottom < ROUTE_LIMIT,
            right == x + w - 1,
            bottom == y + h - 1,
            y + 1 <= ry,
            y + 1 <= bottom ==> ry <= bottom,
            ry <= bottom || ry == y + 1,
            b0 == old(buf)@,
            canvas_ok(b0, height, width, style, labels),
            x == a.x && y == a.y && w == a.width && h == a.height,
            drawable(a, label@) ==> forall|r: int, c: int|
                0 <= r < height && 0 <= c < width ==> #[trigger] buf@[r]@[c] == part_drawn(style, a, label@, r, c, right as int, ry as int, 0, b0[r]@[c]),
        decreases bottom - ry,
    {
        let lc = pen(style, 3, Ghost(labels));
        let rc = pen(style, 4, Ghost(labels));
        let ghost pb = buf@;
        put(buf, ry, x, lc, Ghost(height), Ghost(width), Ghost(style), Ghost(labels));
        let ghost pb1 = buf@;
        put(buf, ry, right, rc, Ghost(height), Ghost(width), Ghost(style), Ghost(labels));
        proof {
            if drawable(a, label@) {
                assert forall|r: int, c: int|
                    0 <= r < height && 0 <= c < width implies #[trigger] buf@[r]@[c] == part_drawn(style, a, label@, r, c, right as int, ry + 1, 0, b0[r]@[c]) by {
                    assert(pb[r]@[c] == part_drawn(style, a, label@, r, c, right as int, ry as int, 0, b0[r]@[c]));
                    assert(pb1[r]@[c] == if r == ry && c == x { lc } else { pb[r]@[c] });
                }
            }
        }
        ry = ry + 1;
    }
    proof {
        if drawable(a, label@) {
            assert forall|r: int, c: int|
                0 <= r < height && 0 <= c < width implies #[trigger] buf@[r]@[c] == part_drawn(style, a, label@, r, c, right as int, bottom as int, 0, b0[r]@[c]) by {
                assert(buf@[r]@[c] == part_drawn(style, a, label@, r, c, right as int, ry as int, 0, b0[r]@[c]));
            }
        }
    }
    let n = label.as_str().unicode_len();
    let mut i: usize = 0;
    while i < n
        invariant
            canvas_ok(buf@, height, width, style, labels),
            0 <= v < labels.len(),
            labels[v] == *label,
            n == label@.len(),
            n <= MAX_COORD,
            x <= ROUTE_LIMIT,
            y < ROUTE_LIMIT,
            right == x + w - 1,
            bottom == y + h - 1,
            i <= n,
            b0 == old(buf)@,
            canvas_ok(b0, height, width, style, labels),
            x == a.x && y == a.y && w == a.width && h == a.height,
            drawable(a, label@) ==> forall|r: int, c: int|
                0 <= r < height && 0 <= c < width ==> #[trigger] buf@[r]@[c] == part_drawn(style, a, label@, r, c, right as int, bottom as int, i as int, b0[r]@[c]),
        decreases n - i,
    {
        let c = label.as_str().get_char(i);
        assert(labels[v]@[i as int] == c);
        let ghost pb = buf@;
        put(buf, y + 1, x + 2 + i, c, Ghost(height), Ghost(width), Ghost(style), Ghost(labels));
        proof {
            if drawable(a, label@) {
                assert forall|r: int, k: int|
                    0 <= r < height && 0 <= k < width implies #[trigger] buf@[r]@[k] == part_drawn(style, a, label@, r, k, right as int, bottom as int, i + 1, b0[r]@[k]) by {
                    assert(pb[r]@[k] == part_drawn(style, a, label@, r, k, right as int, bottom as int, i as int, b0[r]@[k]));
                }
            }
        }
        i = i + 1;
    }
    proof {
        if drawable(a, label@) {
            assert forall|r: int, c: int|
                0 <= r < height && 0 <= c < width implies #[trigger] buf@[r]@[c] == if in_box(a, r, c) {
                    box_glyph(style, a, label@, r, c, b0[r]@[c])
                } else {
                    b0[r]@[c]
                } by {
                assert(buf@[r]@[c] == part_drawn(style, a, label@, r, c, right as int, bottom as int, n as int, b0[r]@[c]));
            }
        }
    }
}

/// Draws a straight connector: a vertical run from the row below `y` down
/// to the first drawn cell, with a departure glyph on row `y` and an arrow
/// head on that cell unless the respective end is a placeholder.
fn draw_straight(buf: &mut Vec<Vec<char>>, x: usize, y: usize, df: bool, dt: bool, style: Style, Ghost(height): Ghost<int>, Ghost(width): Ghost<int>, Ghost(labels): Ghost<Seq<String>>)
    requires
        canvas_ok(old(buf)@, height, width, style, labels),
        y < ROUTE_LIMIT,
    ensures
        canvas_ok(final(buf)@, height, width, style, labels),
        grid(final(buf)@) == straight_paint(grid(old(buf)@), palette(style), x as int, y as int, df, dt),
{
    let ghost p = palette(style);
    let ghost g0 = grid(buf@);
    let n = buf.len();
    let mut yy = y + 1;
    while yy < n && cell(buf, yy, x) == ' '
        invariant
            canvas_ok(buf@, height, width, style, labels),
            n == buf@.len(),
            y + 1 <= yy,
            p == palette(style),
            run_down(grid(buf@), x as int, yy as int, p[9]) == run_down(g0, x as int, y + 1, p[9]),
        decreases n - yy,
    {
        put(buf, yy, x, pen(style, 9, Ghost(labels)), Ghost(height), Ghost(width), Ghost(style), Ghost(labels));
        yy = yy + 1;
    }
    assert(run_down(grid(buf@), x as int, yy as int, p[9]) == (grid(buf@), yy as int));
    if !df {
        put(buf, y, x, pen(style, 8, Ghost(labels)), Ghost(height), Ghost(width), Ghost(style), Ghost(labels));
    }
    if !dt {
        put(buf, yy, x, pen(style, 15, Ghost(labels)), Ghost(height), Ghost(width), Ghost(style), Ghost(labels));
    }
}

/// Draws the corners and the two legs of a bent connector whose lane is
/// on row `row`.
fn draw_bent(buf: &mut Vec<Vec<char>>, x1: usize, x2: usize, row: usize, df: bool, dt: bool, style: Style, Ghost(height): Ghost<int>, Ghost(width): Ghost<int>, Ghost(labels): Ghost<Seq<String>>)
    requires
        canvas_ok(old(buf)@, height, width, style, labels),
        row < ROUTE_LIMIT,
    ensures
        canvas_ok(final(buf)@, height, width, style, labels),
        grid(final(buf)@) == bent_paint(grid(old(buf)@), palette(style), x1 as int, x2 as int, row as int, df, dt),
{
    let ghost p = palette(style);
    if x1 < x2 {
        put(buf, row, x1, pen(style, 11, Ghost(labels)), Ghost(height), Ghost(width), Ghost(style), Ghost(labels));
        put(buf, row, x2, pen(style, 12, Ghost(labels)), Ghost(height), Ghost(width), Ghost(style), Ghost(labels));
    } else {
        put(buf, row, x1, pen(style, 14, Ghost(labels)), Ghost(height), Ghost(width), Ghost(style), Ghost(labels));
        put(buf, row, x2, pen(style, 13, Ghost(labels)), Ghost(height), Ghost(width), Ghost(style), Ghost(labels));
    }
    let ghost g1 = grid(buf@);
    let mut yy = row;
    while yy > 0 && cell(buf, yy - 1, x1) == ' '
        invariant
            canvas_ok(buf@, height, width, style, labels),
            yy <= row,
            p == palette(style),
            run_up(grid(buf@), x1 as int, yy as int, p[9]) == run_up(g1, x1 as int, row as int, p[9]),
        decreases yy,
    {
        put(buf, yy - 1, x1, pen(style, 9, Ghost(labels)), Ghost(height), Ghost(width), Ghost(style), Ghost(labels));
        yy = yy - 1;
    }
    assert(run_up(grid(buf@), x1 as int, yy as int, p[9]) == (grid(buf@), yy as int));
    if !df && yy > 0 {
        put(buf, yy - 1, x1, pen(style, 8, Ghost(labels)), Ghost(height), Ghost(width), Ghost(style), Ghost(labels));
    }
    let ghost g3 = grid(buf@);
    let n = buf.len();
    let mut yy = row + 1;
    while yy < n && cell(buf, yy, x2) == ' '
        invariant
            canvas_ok(buf@, height, width, style, labels),
            n == buf@.len(),
            row + 1 <= yy,
            p == palette(style),
            run_down(grid(buf@), x2 as int, yy as int, p[9]) == run_down(g3, x2 as int, row + 1, p[9]),
        decreases n - yy,
    {
        put(buf, yy, x2, pen(style, 9, Ghost(labels)), Ghost(height), Ghost(width), Ghost(style), Ghost(labels));
        yy = yy + 1;
    }
    assert(run_down(grid(buf@), x2 as int, yy as int, p[9]) == (grid(buf@), yy as int));
    if !dt {
        put(buf, yy, x2, pen(style, 15, Ghost(labels)), Ghost(height), Ghost(width), Ghost(style), Ghost(labels));
    }
}

/// Row of lane `lane` of boundary `idx`, if it lies within the lanes.
fn lane_row(sp: &Vec<(i64, i64)>, idx: usize, lane: i64) -> (r: Option<usize>)
    requires
        lanes_ok(sp@),
        0 <= lane_total(sp@) <= MAX_ITEMS,
        idx < sp@.len(),
        sp@.len() <= MAX_ITEMS,
    ensures
        r matches Some(row) ==> row < ROUTE_LIMIT,
        r matches Some(row) ==> lane_row_of(sp@, idx as int, lane) == Some(row as int),
        r is None ==> lane_row_of(sp@, idx as int, lane) is None,
{
    let (lo, _hi) = sp[idx];
    let d = lane as i128 - lo as i128;
    if d < 0 || d > MAX_ITEMS as i128 {
        return None;
    }
    proof {
        lemma_lane_total_prefix(sp@, idx as int);
        assert(ROW_HEIGHT * (idx + 1) <= ROW_HEIGHT * MAX_ITEMS) by (nonlinear_arith)
            requires idx + 1 <= MAX_ITEMS;
    }
    let above = lanes_above(sp, idx);
    Some(ROW_HEIGHT * (idx + 1) + above + d as usize)
}

/// Paints the laid-out graph on a `height` by `width` grid: every box with
/// its label, then the straight connectors, then the legs and corners of
/// the bent ones, and last their horizontal runs through blank cells.
pub fn render(g: &Graph, ct: &Vec<Vec<Connection>>, sp: &Vec<(i64, i64)>, width: usize, height: usize, style: Style) -> (r: Vec<Vec<char>>)
    requires
        g.wf(),
        forall|v: int| 0 <= v < g.vertices@.len() ==> (#[trigger] g.vertices@[v]).x + g.vertices@[v].width <= ROUTE_LIMIT
            && g.vertices@[v].y + g.vertices@[v].height <= ROUTE_LIMIT,
        forall|v: int| 0 <= v < g.labels@.len() ==> (#[trigger] g.labels@[v])@.len() <= MAX_COORD,
        lanes_ok(sp@),
        0 <= lane_total(sp@) <= MAX_ITEMS,
        sp@.len() <= MAX_ITEMS,
        ct@.len() == sp@.len(),
        forall|k: int, j: int| 0 <= k < ct@.len() && 0 <= j < ct@[k]@.len() ==> match #[trigger] ct@[k]@[j] {
            Connection::Straight { y, .. } => y < ROUTE_LIMIT,
            _ => true,
        },
    ensures
        canvas_ok(r@, height as int, width as int, style, g.labels@),
        (forall|v: int| 0 <= v < g.vertices@.len() ==> drawable(#[trigger] g.vertices@[v], g.labels@[v]@)) && no_connectors(ct@)
            ==> forall|row: int, col: int|
            0 <= row < height && 0 <= col < width ==> #[trigger] r@[row]@[col] == picture(style, g.vertices@, g.labels@, g.vertices@.len() as int, row, col),
        (forall|v: int| 0 <= v < g.vertices@.len() ==> drawable(#[trigger] g.vertices@[v], g.labels@[v]@)) ==> grid(r@)
            == drawing(style, g.vertices@, g.labels@, ct@, sp@, height as int, width as int),
{
    let ghost p = palette(style);
    let ghost labels = g.labels@;
    let ghost (hh, ww) = (height as int, width as int);
    let mut buf = blank(height, width);
    let mut v: usize = 0;
    while v < g.vertices.len()
        invariant
            g.wf(),
            labels == g.labels@,
            hh == height,
            ww == width,
            canvas_ok(buf@, hh, ww, style, labels),
            forall|u: int| 0 <= u < g.vertices@.len() ==> (#[trigger] g.vertices@[u]).x + g.vertices@[u].width <= ROUTE_LIMIT
                && g.vertices@[u].y + g.vertices@[u].height <= ROUTE_LIMIT,
            forall|u: int| 0 <= u < g.labels@.len() ==> (#[trigger] g.labels@[u])@.len() <= MAX_COORD,
            v <= g.vertices@.len(),
            (forall|u: int| 0 <= u < g.vertices@.len() ==> drawable(#[trigger] g.vertices@[u], g.labels@[u]@)) ==> forall|row: int, col: int|
                0 <= row < hh && 0 <= col < ww ==> #[trigger] buf@[row]@[col] == picture(style, g.vertices@, labels, v as int, row, col),
        decreases g.vertices@.len() - v,
    {
        let ghost pb = buf@;
        draw_vertex(&mut buf, g.vertices[v], &g.labels[v], style, Ghost(hh), Ghost(ww), Ghost(labels), Ghost(v as int));
        proof {
            if forall|u: int| 0 <= u < g.vertices@.len() ==> drawable(#[trigger] g.vertices@[u], g.labels@[u]@) {
                assert(drawable(g.vertices@[v as int], g.labels@[v as int]@));
                assert forall|row: int, col: int|
                    0 <= row < hh && 0 <= col < ww implies #[trigger] buf@[row]@[col] == picture(style, g.vertices@, labels, v + 1, row, col) by {
                    assert(pb[row]@[col] == picture(style, g.vertices@, labels, v as int, row, col));
                }
            }
        }
        v = v + 1;
    }
    let ghost b0 = grid(buf@);
    proof {
        if forall|u: int| 0 <= u < g.vertices@.len() ==> drawable(#[trigger] g.vertices@[u], g.labels@[u]@) {
            assert(b0 =~~= boxes(style, g.vertices@, labels, hh, ww));
        }
    }
    let mut k: usize = 0;
    while k < ct.len()
        invariant
            canvas_ok(buf@, hh, ww, style, labels),
            p == palette(style),
            grid(buf@) == paint_pass(b0, p, sp@, ct@, k as int, 0),
            k <= ct@.len(),
            labels == g.labels@,
            (forall|u: int| 0 <= u < g.vertices@.len() ==> drawable(#[trigger] g.vertices@[u], g.labels@[u]@)) ==> b0 == boxes(style, g.vertices@, labels, hh, ww),
            forall|a: int, j: int| 0 <= a < ct@.len() && 0 <= j < ct@[a]@.len() ==> match #[trigger] ct@[a]@[j] {
                Connection::Straight { y, .. } => y < ROUTE_LIMIT,
                _ => true,
            },
        decreases ct@.len() - k,
    {
        let mut j: usize = 0;
        let ghost rk = paint_pass(b0, p, sp@, ct@, k as int, 0);
        while j < ct[k].len()
            invariant
                canvas_ok(buf@, hh, ww, style, labels),
                k < ct@.len(),
                p == palette(style),
                j <= ct@[k as int]@.len(),
                grid(buf@) == paint_row(rk, p, sp@, k as int, ct@[k as int]@, j as int, 0),
                (forall|u: int| 0 <= u < g.vertices@.len() ==> drawable(#[trigger] g.vertices@[u], g.labels@[u]@)) ==> b0 == boxes(style, g.vertices@, labels, hh, ww),
                forall|a: int, i: int| 0 <= a < ct@.len() && 0 <= i < ct@[a]@.len() ==> match #[trigger] ct@[a]@[i] {
                    Connection::Straight { y, .. } => y < ROUTE_LIMIT,
                    _ => true,
                },
            decreases ct@[k as int]@.len() - j,
        {
            let c = ct[k][j];
            if let Connection::Straight { x, y, dummy_from, dummy_to, .. } = c {
                draw_straight(&mut buf, x, y, dummy_from, dummy_to, style, Ghost(hh), Ghost(ww), Ghost(labels));
            }
            j = j + 1;
        }
        k = k + 1;
    }
    let ghost b1 = grid(buf@);
    let mut k: usize = 0;
    while k < ct.len()
        invariant
            canvas_ok(buf@, hh, ww, style, labels),
            ct@.len() == sp@.len(),
            lanes_ok(sp@),
            0 <= lane_total(sp@) <= MAX_ITEMS,
            sp@.len() <= MAX_ITEMS,
            p == palette(style),
            grid(buf@) == paint_pass(b1, p, sp@, ct@, k as int, 1),
            k <= ct@.len(),
            labels == g.labels@,
            (forall|u: int| 0 <= u < g.vertices@.len() ==> drawable(#[trigger] g.vertices@[u], g.labels@[u]@)) ==> b0 == boxes(style, g.vertices@, labels, hh, ww),
            b1 == paint_pass(b0, p, sp@, ct@, ct@.len() as int, 0),
        decreases ct@.len() - k,
    {
        let mut j: usize = 0;
        let ghost rk = paint_pass(b1, p, sp@, ct@, k as int, 1);
        while j < ct[k].len()
            invariant
                canvas_ok(buf@, hh, ww, style, labels),
                k < ct@.len(),
                ct@.len() == sp@.len(),
                lanes_ok(sp@),
                0 <= lane_total(sp@) <= MAX_ITEMS,
                sp@.len() <= MAX_ITEMS,
                p == palette(style),
                j <= ct@[k as int]@.len(),
                grid(buf@) == paint_row(rk, p, sp@, k as int, ct@[k as int]@, j as int, 1),
                (forall|u: int| 0 <= u < g.vertices@.len() ==> drawable(#[trigger] g.vertices@[u], g.labels@[u]@)) ==> b0 == boxes(style, g.vertices@, labels, hh, ww),
                b1 == paint_pass(b0, p, sp@, ct@, ct@.len() as int, 0),
            decreases ct@[k as int]@.len() - j,
        {
            if let Connection::Bent { x_from, x_to, lane, dummy_from, dummy_to, .. } = ct[k][j] {
                if let Some(row) = lane_row(sp, k, lane) {
                    draw_bent(&mut buf, x_from, x_to, row, dummy_from, dummy_to, style, Ghost(hh), Ghost(ww), Ghost(labels));
                }
            }
            j = j + 1;
        }
        k = k + 1;
    }
    let ghost b2 = grid(buf@);
    let mut k: usize = 0;
    while k < ct.len()
        invariant
            canvas_ok(buf@, hh, ww, style, labels),
            ct@.len() == sp@.len(),
            lanes_ok(sp@),
            0 <= lane_total(sp@) <= MAX_ITEMS,
            sp@.len() <= MAX_ITEMS,
            p == palette(style),
            grid(buf@) == paint_pass(b2, p, sp@, ct@, k as int, 2),
            k <= ct@.len(),
            labels == g.labels@,
            (forall|u: int| 0 <= u < g.vertices@.len() ==> drawable(#[trigger] g.vertices@[u], g.labels@[u]@)) ==> b0 == boxes(style, g.vertices@, labels, hh, ww),
            b1 == paint_pass(b0, p, sp@, ct@, ct@.len() as int, 0),
            b2 == paint_pass(b1, p, sp@, ct@, ct@.len() as int, 1),
        decreases ct@.len() - k,
    {
        let mut j: usize = 0;
        let ghost rk = paint_pass(b2, p, sp@, ct@, k as int, 2);
        while j < ct[k].len()
            invariant
                canvas_ok(buf@, hh, ww, style, labels),
                k < ct@.len(),
                ct@.len() == sp@.len(),
                lanes_ok(sp@),
                0 <= lane_total(sp@) <= MAX_ITEMS,
                sp@.len() <= MAX_ITEMS,
                p == palette(style),
                j <= ct@[k as int]@.len(),
                grid(buf@) == paint_row(rk, p, sp@, k as int, ct@[k as int]@, j as int, 2),
                (forall|u: int| 0 <= u < g.vertices@.len() ==> drawable(#[trigger] g.vertices@[u], g.labels@[u]@)) ==> b0 == boxes(style, g.vertices@, labels, hh, ww),
                b1 == paint_pass(b0, p, sp@, ct@, ct@.len() as int, 0),
                b2 == paint_pass(b1, p, sp@, ct@, ct@.len() as int, 1),
            decreases ct@[k as int]@.len() - j,
        {
            if let Connection::Bent { x_from, x_to, lane, .. } = ct[k][j] {
                if let Some(row) = lane_row(sp, k, lane) {
                    let (a, b) = if x_from < x_to { (x_from, x_to) } else { (x_to, x_from) };
                    let mut h = if a < b { a + 1 } else { b };
                    let ghost h0 = h as int;
                    let ghost gh = grid(buf@);
                    while h < b
                        invariant
                            canvas_ok(buf@, hh, ww, style, labels),
                            p == palette(style),
                            h0 <= h || h == b,
                            h <= b || h == h0,
                            hrun(grid(buf@), row as int, h as int, b as int, p[10]) == hrun(gh, row as int, h0, b as int, p[10]),
                                    (forall|u: int| 0 <= u < g.vertices@.len() ==> drawable(#[trigger] g.vertices@[u], g.labels@[u]@)) ==> b0 == boxes(style, g.vertices@, labels, hh, ww),
                            b1 == paint_pass(b0, p, sp@, ct@, ct@.len() as int, 0),
                            b2 == paint_pass(b1, p, sp@, ct@, ct@.len() as int, 1),
                        decreases b - h,
                    {
                        if cell(&buf, row, h) == ' ' {
                            put(&mut buf, row, h, pen(style, 10, Ghost(labels)), Ghost(hh), Ghost(ww), Ghost(style), Ghost(labels));
                        }
                        h = h + 1;
                    }
                }
            }
            j = j + 1;
        }
        k = k + 1;
    }
    proof {
        if forall|u: int| 0 <= u < g.vertices@.len() ==> drawable(#[trigger] g.vertices@[u], g.labels@[u]@) {
            if no_connectors(ct@) {
                lemma_no_paint(b0, p, sp@, ct@, ct@.len() as int, 0);
                lemma_no_paint(b1, p, sp@, ct@, ct@.len() as int, 1);
                lemma_no_paint(b2, p, sp@, ct@, ct@.len() as int, 2);
                assert(grid(buf@) == boxes(style, g.vertices@, labels, hh, ww));
                assert forall|row: int, col: int| 0 <= row < height && 0 <= col < width implies #[trigger] buf@[row]@[col]
                    == picture(style, g.vertices@, g.labels@, g.vertices@.len() as int, row, col) by {
                    assert(grid(buf@)[row][col] == buf@[row]@[col]);
                    assert(boxes(style, g.vertices@, labels, hh, ww)[row][col] == picture(style, g.vertices@, g.labels@, g.vertices@.len() as int, row, col));
                }
            }
        }
    }
    buf
}

proof fn lemma_no_paint(g: Seq<Seq<char>>, p: Seq<char>, sp: Seq<(i64, i64)>, ct: Seq<Vec<Connection>>, k: int, pass: int)
    requires
        no_connectors(ct),
        k <= ct.len(),
    ensures
        paint_pass(g, p, sp, ct, k, pass) == g,
    decreases k,
{
    if k > 0 {
        lemma_no_paint(g, p, sp, ct, k - 1, pass);
        assert(ct[k - 1]@.len() == 0);
    }
}

} // verus!

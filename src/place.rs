//! Box sizes, the initial left-to-right layout and collision relief.

use vstd::prelude::*;
use crate::graph::{Graph, MAX_ITEMS, Vertex};
use crate::order::{cal_crossings_levels, get_positions, layers_view, layers_wf, lemma_positions_agree};

verus! {

/// Largest coordinate a box may reach.
pub const MAX_COORD: usize = 0x3fff_ffff;

/// Rows taken by one level.
pub const ROW_HEIGHT: usize = 3;

/// Columns added to a real vertex's width beyond its label or degree.
pub const PADDING: usize = 4;

/// Rounds of collision relief.
pub const MAX_LOOP: usize = 3;

/// Within each layer, each box ends left of the next one's first column,
/// with at least one blank column between them.
pub open spec fn separated(g: &Graph, layers: Seq<Seq<usize>>) -> bool {
    forall|l: int, i: int, j: int|
        #![trigger layers[l][i], layers[l][j]]
        0 <= l < layers.len() && 0 <= i < j < layers[l].len() ==> g.vertices@[layers[l][i] as int].x
            + g.vertices@[layers[l][i] as int].width < g.vertices@[layers[l][j] as int].x
}

/// Every box fits below `MAX_COORD`.
pub open spec fn bounded(vs: Seq<Vertex>) -> bool {
    forall|v: int| 0 <= v < vs.len() ==> (#[trigger] vs[v]).x + vs[v].width <= MAX_COORD
}

/// Two vertex records agree but for their column and width.
pub open spec fn same_but_xw(a: Vertex, b: Vertex) -> bool {
    a.level == b.level && a.is_dummy == b.is_dummy && a.height == b.height && a.y == b.y
}

/// Number of edges entering (`into`) or leaving `v`.
pub open spec fn degree(es: Seq<crate::graph::Edge>, v: int, into: bool) -> nat
    decreases es.len(),
{
    if es.len() == 0 {
        0
    } else {
        degree(es.drop_last(), v, into) + if (into && es.last().target == v) || (!into
            && es.last().source == v) {
            1nat
        } else {
            0nat
        }
    }
}

proof fn lemma_degree_bound(es: Seq<crate::graph::Edge>, v: int, into: bool)
    ensures
        degree(es, v, into) <= es.len(),
    decreases es.len(),
{
    if es.len() > 0 {
        lemma_degree_bound(es.drop_last(), v, into);
    }
}

fn degrees(g: &Graph, v: usize) -> (r: (usize, usize))
    requires
        g.wf(),
    ensures
        r.0 == degree(g.edges@, v as int, true),
        r.1 == degree(g.edges@, v as int, false),
{
    let mut a: usize = 0;
    let mut b: usize = 0;
    let mut i: usize = 0;
    while i < g.edges.len()
        invariant
            g.wf(),
            i <= g.edges@.len(),
            a == degree(g.edges@.take(i as int), v as int, true),
            b == degree(g.edges@.take(i as int), v as int, false),
        decreases g.edges@.len() - i,
    {
        proof {
            let t = g.edges@.take(i + 1);
            assert(t.drop_last() =~= g.edges@.take(i as int));
            lemma_degree_bound(t, v as int, true);
            lemma_degree_bound(t, v as int, false);
        }
        if g.edges[i].target == v {
            a = a + 1;
        }
        if g.edges[i].source == v {
            b = b + 1;
        }
        i = i + 1;
    }
    assert(g.edges@.take(i as int) =~= g.edges@);
    (a, b)
}

/// Width a vertex's box needs: one column for a placeholder; otherwise the
/// largest of its label length, in-degree and out-degree, plus padding.
pub open spec fn box_width(is_dummy: bool, label: Seq<char>, es: Seq<crate::graph::Edge>, v: int) -> int {
    if is_dummy {
        1
    } else {
        let m = if label.len() >= degree(es, v, true) {
            label.len() as int
        } else {
            degree(es, v, true) as int
        };
        let m2 = if m >= degree(es, v, false) {
            m
        } else {
            degree(es, v, false) as int
        };
        m2 + PADDING
    }
}

/// Gives every box its width and height: three rows for a real vertex and
/// one for a placeholder. Labels longer than `MAX_COORD` columns are not
/// accepted.
pub(crate) fn set_sizes(g: &mut Graph)
    requires
        old(g).wf(),
        forall|v: int| 0 <= v < old(g).labels@.len() ==> (#[trigger] old(g).labels@[v])@.len() <= MAX_COORD,
    ensures
        final(g).wf(),
        final(g).edges@ == old(g).edges@,
        final(g).labels@ == old(g).labels@,
        final(g).vertices@.len() == old(g).vertices@.len(),
        forall|v: int|
            0 <= v < final(g).vertices@.len() ==> {
                let (a, b) = (#[trigger] final(g).vertices@[v], old(g).vertices@[v]);
                &&& a.level == b.level && a.is_dummy == b.is_dummy && a.x == b.x && a.y == b.y
                &&& a.width == box_width(b.is_dummy, old(g).labels@[v]@, old(g).edges@, v)
                &&& a.height == if b.is_dummy { 1usize } else { ROW_HEIGHT }
            },
{
    let n = g.vertices.len();
    let ghost vs0 = g.vertices@;
    let ghost es0 = g.edges@;
    let ghost ls0 = g.labels@;
    let mut v: usize = 0;
    while v < n
        invariant
            g.wf(),
            g.edges@ == es0,
            g.labels@ == ls0,
            n == g.vertices@.len() == vs0.len(),
            forall|v: int| 0 <= v < g.labels@.len() ==> (#[trigger] g.labels@[v])@.len() <= MAX_COORD,
            v <= n,
            forall|u: int| v <= u < n ==> g.vertices@[u] == vs0[u],
            forall|u: int|
                0 <= u < v ==> {
                    let (a, b) = (#[trigger] g.vertices@[u], vs0[u]);
                    &&& a.level == b.level && a.is_dummy == b.is_dummy && a.x == b.x && a.y == b.y
                    &&& a.width == box_width(b.is_dummy, g.labels@[u]@, g.edges@, u)
                    &&& a.height == if b.is_dummy { 1usize } else { ROW_HEIGHT }
                },
        decreases n - v,
    {
        let (din, dout) = degrees(g, v);
        proof {
            lemma_degree_bound(g.edges@, v as int, true);
            lemma_degree_bound(g.edges@, v as int, false);
        }
        let len = g.labels[v].as_str().unicode_len();
        let mut x = g.vertices[v];
        if x.is_dummy {
            x.width = 1;
            x.height = 1;
        } else {
            let mut m = len;
            if din > m {
                m = din;
            }
            if dout > m {
                m = dout;
            }
            x.width = m + PADDING;
            x.height = ROW_HEIGHT;
        }
        g.vertices.set(v, x);
        v = v + 1;
    }
}

/// Layers depend on vertex levels only.
pub proof fn lemma_layers_keep(g1: &Graph, g2: &Graph, layers: Seq<Seq<usize>>)
    requires
        layers_wf(g1, layers),
        g2.vertices@.len() == g1.vertices@.len(),
        forall|v: int| 0 <= v < g1.vertices@.len() ==> (#[trigger] g2.vertices@[v]).level == g1.vertices@[v].level,
    ensures
        layers_wf(g2, layers),
{
    assert forall|l: int, i: int|
        0 <= l < layers.len() && 0 <= i < layers[l].len() implies (#[trigger] layers[l][i])
            < g2.vertices@.len() && g2.vertices@[layers[l][i] as int].level == l + 1 by {
        assert(layers[l][i] < g1.vertices@.len());
    }
    assert forall|v: int|
        0 <= v < g2.vertices@.len() implies 1 <= (#[trigger] g2.vertices@[v]).level <= layers.len()
            && layers[g2.vertices@[v].level - 1].contains(v as usize) by {
        assert(1 <= g1.vertices@[v].level <= layers.len());
    }
}

/// Column that `v` must reach with its right border so that connectors to
/// its neighbours (predecessors when `into`, else successors) fit: two
/// columns right of a real neighbour's left border for a real vertex, one
/// when exactly one of the two is a placeholder, the same column when both
/// are; zero when it has no such neighbour.
fn need_x(g: &Graph, v: usize, into: bool) -> (r: usize)
    requires
        g.wf(),
        v < g.vertices@.len(),
        bounded(g.vertices@),
    ensures
        r <= MAX_COORD + 2,
{
    let me = g.vertices[v];
    let mut acc: usize = 0;
    let mut i: usize = 0;
    while i < g.edges.len()
        invariant
            g.wf(),
            bounded(g.vertices@),
            i <= g.edges@.len(),
            acc <= MAX_COORD + 2,
        decreases g.edges@.len() - i,
    {
        let e = g.edges[i];
        let other = if into && e.target == v {
            Some(e.source)
        } else if !into && e.source == v {
            Some(e.target)
        } else {
            None
        };
        if let Some(o) = other {
            let w = g.vertices[o];
            assert(w.x + w.width <= MAX_COORD);
            let c = if me.is_dummy && w.is_dummy {
                w.x
            } else if !me.is_dummy && !w.is_dummy {
                w.x + 2
            } else {
                w.x + 1
            };
            if c > acc {
                acc = c;
            }
        }
        i = i + 1;
    }
    acc
}

/// Moves every vertex of layer `l` from entry `from` on right by `s`
/// columns; nothing else changes.
fn shift_suffix(g: &mut Graph, layers: &Vec<Vec<usize>>, l: usize, from: usize, s: usize)
    requires
        placed(&*old(g), layers_view(layers), old(g).vertices@),
        l < layers@.len(),
        forall|q: int|
            from <= q < layers@[l as int]@.len() ==> old(g).vertices@[#[trigger] layers@[l as int]@[q] as int].x
                + old(g).vertices@[layers@[l as int]@[q] as int].width + s <= MAX_COORD,
    ensures
        placed(&*final(g), layers_view(layers), old(g).vertices@),
        final(g).edges@ == old(g).edges@,
        final(g).labels@ == old(g).labels@,
        forall|v: int| 0 <= v < final(g).vertices@.len() ==> (#[trigger] final(g).vertices@[v]).width == old(g).vertices@[v].width,
        forall|v: int| 0 <= v < final(g).vertices@.len() && old(g).vertices@[v].level != l + 1 ==> #[trigger] final(g).vertices@[v] == old(g).vertices@[v],
        forall|q: int|
            0 <= q < layers@[l as int]@.len() ==> (#[trigger] final(g).vertices@[layers@[l as int]@[q] as int]).x
                == old(g).vertices@[layers@[l as int]@[q] as int].x + if q >= from { s as int } else { 0 },
{
    let ghost vs0 = g.vertices@;
    let ghost lay = layers_view(layers);
    let ghost row = layers@[l as int]@;
    proof {
        assert(lay[l as int] == row);
    }
    let mut k: usize = from;
    while k < layers[l].len()
        invariant
            g.wf(),
            g.vertices@.len() == vs0.len(),
            old(g).vertices@ == vs0,
            g.edges@ == old(g).edges@,
            g.labels@ == old(g).labels@,
            lay == layers_view(layers),
            placed(&*old(g), lay, vs0),
            lay[l as int] == row,
            row == layers@[l as int]@,
            l < lay.len(),
            from <= k,
            forall|q: int|
                from <= q < row.len() ==> vs0[#[trigger] row[q] as int].x + vs0[row[q] as int].width + s <= MAX_COORD,
            forall|v: int| 0 <= v < vs0.len() && vs0[v].level != l + 1 ==> #[trigger] g.vertices@[v] == vs0[v],
            forall|q: int|
                0 <= q < row.len() ==> {
                    let (a, b) = (#[trigger] g.vertices@[row[q] as int], vs0[row[q] as int]);
                    &&& same_but_xw(a, b)
                    &&& a.width == b.width
                    &&& a.x == b.x + if from <= q < k { s as int } else { 0 }
                },
        decreases row.len() - k,
    {
        let u = layers[l][k];
        proof {
            assert(lay[l as int][k as int] == u);
            assert(u < vs0.len());
            assert forall|q: int| 0 <= q < row.len() && q != k implies row[q] != u by {
                assert(lay[l as int].no_duplicates());
            }
        }
        let mut y = g.vertices[u];
        y.x = y.x + s;
        g.vertices.set(u, y);
        k = k + 1;
    }
    proof {
        assert forall|v: int| 0 <= v < vs0.len() && vs0[v].level == l + 1 implies exists|q: int|
            0 <= q < row.len() && row[q] == v by {
            assert(lay[l as int].contains(v as usize));
        }
        assert forall|v: int| 0 <= v < g.vertices@.len() implies same_but_xw(
            #[trigger] g.vertices@[v],
            vs0[v],
        ) && g.vertices@[v].x + g.vertices@[v].width <= MAX_COORD && g.vertices@[v].width == vs0[v].width by {
            if vs0[v].level == l + 1 {
                let q = choose|q: int| 0 <= q < row.len() && row[q] == v;
                assert(g.vertices@[row[q] as int] == g.vertices@[v]);
            }
        }
        lemma_layers_keep(&*old(g), &*g, lay);
        assert forall|a: int, i: int, j: int|
            #![trigger lay[a][i], lay[a][j]]
            0 <= a < lay.len() && 0 <= i < j < lay[a].len() implies g.vertices@[lay[a][i] as int].x
                + g.vertices@[lay[a][i] as int].width < g.vertices@[lay[a][j] as int].x by {
            assert(vs0[lay[a][i] as int].x + vs0[lay[a][i] as int].width < vs0[lay[a][j] as int].x);
            if a == l {
                assert(g.vertices@[row[i] as int] == g.vertices@[lay[a][i] as int]);
                assert(g.vertices@[row[j] as int] == g.vertices@[lay[a][j] as int]);
            } else {
                assert(vs0[lay[a][i] as int].level == a + 1);
                assert(vs0[lay[a][j] as int].level == a + 1);
            }
        }
    }
}

/// Makes room at entry `p` of layer `l` by `s` columns: every later entry
/// of the layer moves right by `s`, and so does every entry at `p` or
/// later in each level beyond `l` in the sweep direction (below when
/// `downward`, above otherwise); then a placeholder at `p` moves right by
/// `s` and a real vertex there grows `s` wider.
fn apply_shift(g: &mut Graph, layers: &Vec<Vec<usize>>, l: usize, p: usize, s: usize, downward: bool)
    requires
        placed(&*old(g), layers_view(layers), old(g).vertices@),
        l < layers@.len(),
        p < layers@[l as int]@.len(),
        forall|v: int| 0 <= v < old(g).vertices@.len() ==> (#[trigger] old(g).vertices@[v]).x + old(g).vertices@[v].width + s <= MAX_COORD,
    ensures
        placed(&*final(g), layers_view(layers), old(g).vertices@),
        final(g).edges@ == old(g).edges@,
        final(g).labels@ == old(g).labels@,
{
    let ghost vs0 = g.vertices@;
    let ghost lay = layers_view(layers);
    proof {
        assert(lay[l as int].len() <= g.vertices@.len());
        assert forall|q: int| p + 1 <= q < layers@[l as int]@.len() implies g.vertices@[#[trigger] layers@[l as int]@[q] as int].x
            + g.vertices@[layers@[l as int]@[q] as int].width + s <= MAX_COORD by {
            assert(lay[l as int][q] == layers@[l as int]@[q]);
        }
    }
    shift_suffix(g, layers, l, p + 1, s);
    let top = layers.len();
    let mut k: usize = if downward { l + 1 } else { l };
    while (downward && k < top) || (!downward && k > 0)
        invariant
            placed(&*g, lay, vs0),
            lay == layers_view(layers),
            top == layers@.len(),
            l < top,
            p < layers@[l as int]@.len(),
            downward ==> l + 1 <= k <= top,
            !downward ==> k <= l,
            forall|v: int| 0 <= v < vs0.len() ==> (#[trigger] vs0[v]).x + vs0[v].width + s <= MAX_COORD,
            forall|v: int| 0 <= v < vs0.len() && vs0[v].level != l + 1 && (downward ==> vs0[v].level - 1 >= k) && (!downward ==> vs0[v].level - 1 < k) ==> #[trigger] g.vertices@[v] == vs0[v],
            forall|v: int| 0 <= v < vs0.len() && vs0[v].level == l + 1 ==> (#[trigger] g.vertices@[v]).width == vs0[v].width,
            forall|q: int|
                0 <= q < layers@[l as int]@.len() ==> (#[trigger] g.vertices@[layers@[l as int]@[q] as int]).x
                    == vs0[layers@[l as int]@[q] as int].x + if q > p { s as int } else { 0 },
            g.edges@ == old(g).edges@,
            g.labels@ == old(g).labels@,
        decreases if downward { top - k } else { k as int },
    {
        let m = if downward { k } else { k - 1 };
        proof {
            assert forall|q: int| p <= q < layers@[m as int]@.len() implies g.vertices@[#[trigger] layers@[m as int]@[q] as int].x
                + g.vertices@[layers@[m as int]@[q] as int].width + s <= MAX_COORD by {
                let v = layers@[m as int]@[q] as int;
                assert(lay[m as int][q] == layers@[m as int]@[q]);
                assert(g.vertices@[v].level == m + 1);
                assert(g.vertices@[v] == vs0[v]);
            }
        }
        let ghost before = g.vertices@;
        shift_suffix(g, layers, m, p, s);
        proof {
            assert forall|v: int| 0 <= v < vs0.len() implies {
                let (a, b) = (#[trigger] g.vertices@[v], vs0[v]);
                &&& same_but_xw(a, b)
                &&& a.width >= b.width
                &&& b.is_dummy ==> a.width == b.width
            } by {
                assert(same_but_xw(g.vertices@[v], before[v]));
                assert(same_but_xw(before[v], vs0[v]));
            }
            assert forall|q: int|
                0 <= q < layers@[l as int]@.len() implies (#[trigger] g.vertices@[layers@[l as int]@[q] as int]).x
                    == vs0[layers@[l as int]@[q] as int].x + if q > p { s as int } else { 0 } by {
                let v = layers@[l as int]@[q] as int;
                assert(lay[l as int][q] == layers@[l as int]@[q]);
                assert(before[v].level == l + 1);
            }
        }
        if downward {
            k = k + 1;
        } else {
            k = k - 1;
        }
    }
    let n = layers[l][p];
    proof {
        assert(lay[l as int][p as int] == n);
        assert(g.vertices@[n as int].x == vs0[n as int].x);
        assert(g.vertices@[n as int].width == vs0[n as int].width);
        assert forall|q: int| p < q < layers@[l as int]@.len() implies g.vertices@[n as int].x + g.vertices@[n as int].width + s
            < g.vertices@[#[trigger] layers@[l as int]@[q] as int].x by {
            assert(lay[l as int][q] == layers@[l as int]@[q]);
            assert(vs0[lay[l as int][p as int] as int].x + vs0[lay[l as int][p as int] as int].width < vs0[lay[l as int][q] as int].x);
        }
    }
    let ghost g1 = g.vertices@;
    let mut x = g.vertices[n];
    if x.is_dummy {
        x.x = x.x + s;
    } else {
        x.width = x.width + s;
    }
    g.vertices.set(n, x);
    proof {
        lemma_layers_keep(&*old(g), &*g, lay);
        assert(layers_wf(&*g, lay));
        assert forall|a: int, i: int, j: int|
            #![trigger lay[a][i], lay[a][j]]
            0 <= a < lay.len() && 0 <= i < j < lay[a].len() implies g.vertices@[lay[a][i] as int].x
                + g.vertices@[lay[a][i] as int].width < g.vertices@[lay[a][j] as int].x by {
            assert(g1[lay[a][i] as int].x + g1[lay[a][i] as int].width < g1[lay[a][j] as int].x);
            if lay[a][i] == n {
                assert(lay[a][i] == lay[l as int][p as int]);
                assert(a == l);
                assert(lay[l as int].no_duplicates());
                assert(i == p);
                assert(lay[l as int][j] == layers@[l as int]@[j]);
            }
            if lay[a][j] == n {
                assert(lay[a][j] == lay[l as int][p as int]);
                assert(a == l);
                assert(lay[l as int].no_duplicates());
            }
        }
        assert forall|v: int| 0 <= v < vs0.len() implies {
            let (a, b) = (#[trigger] g.vertices@[v], vs0[v]);
            &&& same_but_xw(a, b)
            &&& a.width >= b.width
            &&& b.is_dummy ==> a.width == b.width
        } by {
            assert(same_but_xw(g1[v], vs0[v]));
            if v == n {
                assert(g1[v].width == vs0[v].width);
            }
        }
        assert forall|v: int| 0 <= v < g.vertices@.len() implies (#[trigger] g.vertices@[v]).x + g.vertices@[v].width <= MAX_COORD by {
            if v == n {
                assert(g1[v].x == vs0[v].x && g1[v].width == vs0[v].width);
            }
        }
    }
}

/// Columns a row of boxes takes when laid out left to right with one blank
/// column after each box.
pub open spec fn row_extent(vs: Seq<Vertex>, row: Seq<usize>) -> int
    decreases row.len(),
{
    if row.len() == 0 {
        0
    } else {
        row_extent(vs, row.drop_last()) + vs[row.last() as int].width + 1
    }
}

/// The layout fits below `MAX_COORD` in both directions.
pub open spec fn fits(g: &Graph, layers: Seq<Seq<usize>>) -> bool {
    &&& layers.len() * ROW_HEIGHT <= MAX_COORD
    &&& forall|l: int| 0 <= l < layers.len() ==> row_extent(g.vertices@, #[trigger] layers[l]) <= MAX_COORD
}

proof fn lemma_row_extent_mono(vs: Seq<Vertex>, row: Seq<usize>, k: int)
    requires
        0 <= k <= row.len(),
    ensures
        row_extent(vs, row.take(k)) <= row_extent(vs, row),
    decreases row.len() - k,
{
    if k < row.len() {
        lemma_row_extent_mono(vs, row, k + 1);
        assert(row.take(k + 1).drop_last() =~= row.take(k));
    } else {
        assert(row.take(k) =~= row);
    }
}

/// Whether the layout of these layers fits below `MAX_COORD`.
pub fn layout_fits(g: &Graph, layers: &Vec<Vec<usize>>) -> (r: bool)
    requires
        g.wf(),
        layers_wf(g, layers_view(layers)),
    ensures
        r == fits(g, layers_view(layers)),
{
    if layers.len() > MAX_COORD / ROW_HEIGHT {
        return false;
    }
    let mut l: usize = 0;
    while l < layers.len()
        invariant
            g.wf(),
            layers_wf(g, layers_view(layers)),
            layers@.len() * ROW_HEIGHT <= MAX_COORD,
            l <= layers@.len(),
            forall|a: int| 0 <= a < l ==> row_extent(g.vertices@, #[trigger] layers_view(layers)[a]) <= MAX_COORD,
        decreases layers@.len() - l,
    {
        let ghost row = layers_view(layers)[l as int];
        let mut sum: usize = 0;
        let mut i: usize = 0;
        while i < layers[l].len()
            invariant
                g.wf(),
                layers_wf(g, layers_view(layers)),
                l < layers@.len(),
                row == layers@[l as int]@,
                i <= row.len(),
                sum == row_extent(g.vertices@, row.take(i as int)),
                sum <= MAX_COORD,
            decreases row.len() - i,
        {
            let v = layers[l][i];
            proof {
                assert(layers_view(layers)[l as int][i as int] == v);
                assert(row.take(i + 1).drop_last() =~= row.take(i as int));
            }
            let w = g.vertices[v].width;
            if w >= MAX_COORD - sum {
                proof {
                    lemma_row_extent_mono(g.vertices@, row, i + 1);
                }
                return false;
            }
            sum = sum + w + 1;
            i = i + 1;
        }
        assert(row.take(i as int) =~= row);
        l = l + 1;
    }
    true
}

/// Lays each layer out left to right from column zero, one blank column
/// between boxes; layer `l` starts at row `ROW_HEIGHT * l`. Returns the
/// widest row's extent.
fn initial_layout(g: &mut Graph, layers: &Vec<Vec<usize>>) -> (r: usize)
    requires
        old(g).wf(),
        layers_wf(&*old(g), layers_view(layers)),
        fits(&*old(g), layers_view(layers)),
    ensures
        final(g).wf(),
        final(g).edges@ == old(g).edges@,
        final(g).labels@ == old(g).labels@,
        final(g).vertices@.len() == old(g).vertices@.len(),
        layers_wf(&*final(g), layers_view(layers)),
        separated(&*final(g), layers_view(layers)),
        bounded(final(g).vertices@),
        r <= MAX_COORD,
        forall|v: int|
            0 <= v < final(g).vertices@.len() ==> {
                let (a, b) = (#[trigger] final(g).vertices@[v], old(g).vertices@[v]);
                &&& a.level == b.level && a.is_dummy == b.is_dummy && a.height == b.height
                &&& a.width == b.width
                &&& a.y == ROW_HEIGHT * (a.level - 1)
            },
{
    let ghost vs0 = g.vertices@;
    let ghost lay = layers_view(layers);
    let mut max_col: usize = 0;
    let mut l: usize = 0;
    while l < layers.len()
        invariant
            g.wf(),
            g.edges@ == old(g).edges@,
            g.labels@ == old(g).labels@,
            g.vertices@.len() == vs0.len(),
            vs0 == old(g).vertices@,
            lay == layers_view(layers),
            layers_wf(&*old(g), lay),
            fits(&*old(g), lay),
            l <= lay.len(),
            max_col <= MAX_COORD,
            forall|v: int|
                0 <= v < vs0.len() ==> {
                    let (a, b) = (#[trigger] g.vertices@[v], vs0[v]);
                    &&& a.level == b.level && a.is_dummy == b.is_dummy && a.height == b.height
                    &&& a.width == b.width
                    &&& b.level - 1 < l ==> a.y == ROW_HEIGHT * (a.level - 1) && a.x + a.width <= MAX_COORD
                },
            forall|a: int, i: int, j: int|
                #![trigger lay[a][i], lay[a][j]]
                0 <= a < l && 0 <= i < j < lay[a].len() ==> g.vertices@[lay[a][i] as int].x
                    + g.vertices@[lay[a][i] as int].width < g.vertices@[lay[a][j] as int].x,
            forall|v: int| 0 <= v < vs0.len() && vs0[v].level - 1 >= l ==> #[trigger] g.vertices@[v] == vs0[v],
        decreases lay.len() - l,
    {
        let ghost row = lay[l as int];
        let mut cur: usize = 0;
        let mut i: usize = 0;
        while i < layers[l].len()
            invariant
                g.wf(),
                g.edges@ == old(g).edges@,
                g.labels@ == old(g).labels@,
                g.vertices@.len() == vs0.len(),
                vs0 == old(g).vertices@,
                lay == layers_view(layers),
                layers_wf(&*old(g), lay),
                fits(&*old(g), lay),
                l < lay.len(),
                row == lay[l as int],
                row == layers@[l as int]@,
                i <= row.len(),
                cur == row_extent(vs0, row.take(i as int)),
                forall|v: int|
                    0 <= v < vs0.len() ==> {
                        let (a, b) = (#[trigger] g.vertices@[v], vs0[v]);
                        &&& a.level == b.level && a.is_dummy == b.is_dummy && a.height == b.height
                        &&& a.width == b.width
                        &&& b.level - 1 < l ==> a.y == ROW_HEIGHT * (a.level - 1) && a.x + a.width <= MAX_COORD
                    },
                forall|a: int, q: int, j: int|
                    #![trigger lay[a][q], lay[a][j]]
                    0 <= a < l && 0 <= q < j < lay[a].len() ==> g.vertices@[lay[a][q] as int].x
                        + g.vertices@[lay[a][q] as int].width < g.vertices@[lay[a][j] as int].x,
                forall|q: int| 0 <= q < i ==> {
                    let a = #[trigger] g.vertices@[row[q] as int];
                    &&& a.y == ROW_HEIGHT * l
                    &&& a.x + a.width + 1 <= cur
                },
                forall|q: int, j: int|
                    #![trigger row[q], row[j]]
                    0 <= q < j < i ==> g.vertices@[row[q] as int].x
                    + g.vertices@[row[q] as int].width < g.vertices@[row[j] as int].x,
                forall|v: int| 0 <= v < vs0.len() && vs0[v].level == l + 1 && !row.take(i as int).contains(v as usize)
                    ==> #[trigger] g.vertices@[v] == vs0[v],
                forall|v: int| 0 <= v < vs0.len() && vs0[v].level - 1 > l ==> #[trigger] g.vertices@[v] == vs0[v],
            decreases row.len() - i,
        {
            let v = layers[l][i];
            proof {
                assert(lay[l as int][i as int] == v);
                assert(v < vs0.len() && vs0[v as int].level == l + 1);
                assert(row.take(i + 1).drop_last() =~= row.take(i as int));
                lemma_row_extent_mono(vs0, row, i + 1);
                assert(!row.take(i as int).contains(v)) by {
                    assert(lay[l as int].no_duplicates());
                }
            }
            let mut x = g.vertices[v];
            x.x = cur;
            x.y = ROW_HEIGHT * l;
            g.vertices.set(v, x);
            cur = cur + x.width + 1;
            proof {
                assert forall|u: int| 0 <= u < vs0.len() && vs0[u].level == l + 1 && !row.take(i + 1).contains(u as usize)
                    implies #[trigger] g.vertices@[u] == vs0[u] by {
                    if u != v {
                        assert(!row.take(i as int).contains(u as usize)) by {
                            if row.take(i as int).contains(u as usize) {
                                let q = choose|q: int| 0 <= q < i && row.take(i as int)[q] == u as usize;
                                assert(row.take(i + 1)[q] == u as usize);
                            }
                        }
                    } else {
                        assert(row.take(i + 1)[i as int] == v);
                    }
                }
                assert forall|q: int| 0 <= q < i implies row[q] != v by {
                    assert(lay[l as int].no_duplicates());
                }
            }
            i = i + 1;
        }
        proof {
            assert(row.take(i as int) =~= row);
            assert forall|v: int| 0 <= v < vs0.len() && vs0[v].level - 1 < l + 1 implies {
                let a = #[trigger] g.vertices@[v];
                a.y == ROW_HEIGHT * (a.level - 1) && a.x + a.width <= MAX_COORD
            } by {
                if vs0[v].level - 1 == l {
                    assert(lay[l as int].contains(v as usize));
                    let q = choose|q: int| 0 <= q < row.len() && row[q] == v as usize;
                    assert(g.vertices@[row[q] as int] == g.vertices@[v]);
                }
            }
            assert forall|a: int, q: int, j: int|
                #![trigger lay[a][q], lay[a][j]]
                0 <= a < l + 1 && 0 <= q < j < lay[a].len() implies g.vertices@[lay[a][q] as int].x
                    + g.vertices@[lay[a][q] as int].width < g.vertices@[lay[a][j] as int].x by {
                if a == l {
                    assert(g.vertices@[row[j] as int].x > g.vertices@[row[q] as int].x
                        + g.vertices@[row[q] as int].width);
                }
            }
            assert(ROW_HEIGHT * l <= MAX_COORD) by (nonlinear_arith)
                requires l < lay.len(), lay.len() * ROW_HEIGHT <= MAX_COORD;
        }
        if cur > max_col {
            max_col = cur;
        }
        l = l + 1;
    }
    proof {
        lemma_layers_keep(&*old(g), &*g, lay);
        assert forall|v: int| 0 <= v < g.vertices@.len() implies (#[trigger] g.vertices@[v]).x
            + g.vertices@[v].width <= MAX_COORD by {
            assert(1 <= vs0[v].level <= lay.len());
        }
    }
    max_col
}

/// Largest right border of any box.
fn graph_end(g: &Graph) -> (r: usize)
    requires
        g.wf(),
        bounded(g.vertices@),
    ensures
        r <= MAX_COORD,
        forall|v: int| 0 <= v < g.vertices@.len() ==> (#[trigger] g.vertices@[v]).x + g.vertices@[v].width <= r,
{
    let mut r: usize = 0;
    let mut v: usize = 0;
    while v < g.vertices.len()
        invariant
            g.wf(),
            bounded(g.vertices@),
            v <= g.vertices@.len(),
            r <= MAX_COORD,
            forall|u: int| 0 <= u < v ==> (#[trigger] g.vertices@[u]).x + g.vertices@[u].width <= r,
        decreases g.vertices@.len() - v,
    {
        let e = g.vertices[v].x + g.vertices[v].width;
        if e > r {
            r = e;
        }
        v = v + 1;
    }
    r
}

/// The layout invariants that collision relief keeps.
pub open spec fn placed(g: &Graph, layers: Seq<Seq<usize>>, vs0: Seq<Vertex>) -> bool {
    &&& g.wf()
    &&& layers_wf(g, layers)
    &&& separated(g, layers)
    &&& bounded(g.vertices@)
    &&& g.vertices@.len() == vs0.len()
    &&& forall|v: int|
        0 <= v < vs0.len() ==> {
            let (a, b) = (#[trigger] g.vertices@[v], vs0[v]);
            &&& same_but_xw(a, b)
            &&& a.width >= b.width
            &&& b.is_dummy ==> a.width == b.width
        }
}

/// One relief step over the boundary below layer `b`: downward, each vertex
/// of layer `b + 1` makes room for its predecessors; upward, each vertex of
/// layer `b` makes room for its successors. A shift that would pass
/// `MAX_COORD` is not made. Returns the largest shift made.
fn relieve_boundary(g: &mut Graph, layers: &Vec<Vec<usize>>, b: usize, downward: bool) -> (r: usize)
    requires
        placed(&*old(g), layers_view(layers), old(g).vertices@),
        b + 1 < layers@.len() <= MAX_COORD,
    ensures
        placed(&*final(g), layers_view(layers), old(g).vertices@),
        final(g).edges@ == old(g).edges@,
        final(g).labels@ == old(g).labels@,
{
    let l = if downward { b + 1 } else { b };
    let ghost vs0 = g.vertices@;
    let mut most: usize = 0;
    let mut i: usize = 0;
    while i < layers[l].len()
        invariant
            placed(&*g, layers_view(layers), vs0),
            vs0 == old(g).vertices@,
            g.edges@ == old(g).edges@,
            g.labels@ == old(g).labels@,
            l < layers@.len(),
        decreases layers@[l as int]@.len() - i,
    {
        let n = layers[l][i];
        proof {
            assert(layers_view(layers)[l as int][i as int] == n);
        }
        let need = need_x(g, n, downward);
        let v = g.vertices[n];
        if need + 1 > v.x + v.width {
            let shift = need + 1 - (v.x + v.width);
            let end = graph_end(g);
            if shift <= MAX_COORD - end {
                let ghost before = g.vertices@;
                apply_shift(g, layers, l, i, shift, downward);
                if shift > most {
                    most = shift;
                }
                proof {
                    assert forall|v: int| 0 <= v < vs0.len() implies {
                        let (a, b) = (#[trigger] g.vertices@[v], vs0[v]);
                        &&& same_but_xw(a, b)
                        &&& a.width >= b.width
                        &&& b.is_dummy ==> a.width == b.width
                    } by {
                        assert(same_but_xw(g.vertices@[v], before[v]));
                        assert(same_but_xw(before[v], vs0[v]));
                    }
                }
            }
        }
        i = i + 1;
    }
    most
}

/// Places every vertex: an initial left-to-right layout of each layer,
/// then `MAX_LOOP` rounds of collision relief, each a downward then an
/// upward pass over the boundaries that have crossings. Returns the canvas
/// width (the largest right border) and height (`ROW_HEIGHT` rows per
/// layer). Within a layer no two boxes overlap, and each vertex sits on
/// the row of its level.
pub fn place_node(g: &mut Graph, layers: &Vec<Vec<usize>>) -> (r: (usize, usize))
    requires
        old(g).wf(),
        layers_wf(&*old(g), layers_view(layers)),
        fits(&*old(g), layers_view(layers)),
    ensures
        final(g).wf(),
        final(g).edges@ == old(g).edges@,
        final(g).labels@ == old(g).labels@,
        final(g).vertices@.len() == old(g).vertices@.len(),
        layers_wf(&*final(g), layers_view(layers)),
        separated(&*final(g), layers_view(layers)),
        bounded(final(g).vertices@),
        forall|v: int|
            0 <= v < final(g).vertices@.len() ==> {
                let (a, b) = (#[trigger] final(g).vertices@[v], old(g).vertices@[v]);
                &&& a.level == b.level && a.is_dummy == b.is_dummy && a.height == b.height
                &&& a.width >= b.width
                &&& b.is_dummy ==> a.width == b.width
                &&& a.y == ROW_HEIGHT * (a.level - 1)
                &&& a.x + a.width <= r.0
            },
        r.0 <= MAX_COORD,
        r.1 == ROW_HEIGHT * layers@.len(),
{
    let ghost vs_in = g.vertices@;
    initial_layout(g, layers);
    let ghost vs0 = g.vertices@;
    let top = layers.len();
    let pos = get_positions(g, layers);
    let cl = cal_crossings_levels(g, &pos, top);
    let mut round: usize = 0;
    while round < MAX_LOOP
        invariant
            placed(&*g, layers_view(layers), vs0),
            g.edges@ == old(g).edges@,
            g.labels@ == old(g).labels@,
            top == layers@.len(),
            top <= MAX_COORD,
            cl@.len() == if top > 0 { top - 1 } else { 0 },
        decreases MAX_LOOP - round,
    {
        let mut b: usize = 0;
        while b + 1 < top
            invariant
                placed(&*g, layers_view(layers), vs0),
                g.edges@ == old(g).edges@,
                g.labels@ == old(g).labels@,
                top == layers@.len(),
                top <= MAX_COORD,
                b <= top,
                cl@.len() == if top > 0 { top - 1 } else { 0 },
            decreases top - b,
        {
            if cl[b] != 0 {
                let ghost before = g.vertices@;
                relieve_boundary(g, layers, b, true);
                proof {
                    lemma_placed_trans(&*g, layers_view(layers), before, vs0);
                }
            }
            b = b + 1;
        }
        let mut k: usize = top;
        while k > 1
            invariant
                placed(&*g, layers_view(layers), vs0),
                g.edges@ == old(g).edges@,
                g.labels@ == old(g).labels@,
                top == layers@.len(),
                top <= MAX_COORD,
                k <= top,
                cl@.len() == if top > 0 { top - 1 } else { 0 },
            decreases k,
        {
            let b = k - 2;
            if cl[b] != 0 {
                let ghost before = g.vertices@;
                relieve_boundary(g, layers, b, false);
                proof {
                    lemma_placed_trans(&*g, layers_view(layers), before, vs0);
                }
            }
            k = k - 1;
        }
        round = round + 1;
    }
    let mut width: usize = 0;
    let mut v: usize = 0;
    while v < g.vertices.len()
        invariant
            placed(&*g, layers_view(layers), vs0),
            v <= g.vertices@.len(),
            width <= MAX_COORD,
            forall|u: int| 0 <= u < v ==> g.vertices@[u].x + g.vertices@[u].width <= width,
        decreases g.vertices@.len() - v,
    {
        let e = g.vertices[v].x + g.vertices[v].width;
        if e > width {
            width = e;
        }
        v = v + 1;
    }
    proof {
        assert(ROW_HEIGHT * top <= MAX_COORD);
    }
    (width, ROW_HEIGHT * top)
}

proof fn lemma_placed_trans(g: &Graph, layers: Seq<Seq<usize>>, mid: Seq<Vertex>, vs0: Seq<Vertex>)
    requires
        placed(g, layers, mid),
        mid.len() == vs0.len(),
        forall|v: int|
            0 <= v < vs0.len() ==> {
                let (a, b) = (#[trigger] mid[v], vs0[v]);
                &&& same_but_xw(a, b)
                &&& a.width >= b.width
                &&& b.is_dummy ==> a.width == b.width
            },
    ensures
        placed(g, layers, vs0),
{
    assert forall|v: int| 0 <= v < vs0.len() implies {
        let (a, b) = (#[trigger] g.vertices@[v], vs0[v]);
        &&& same_but_xw(a, b)
        &&& a.width >= b.width
        &&& b.is_dummy ==> a.width == b.width
    } by {
        assert(same_but_xw(g.vertices@[v], mid[v]));
        assert(same_but_xw(mid[v], vs0[v]));
    }
}

} // verus!

//! Layer orders, positions within layers, and crossing totals.

use vstd::prelude::*;
use crate::graph::{Edge, Graph, MAX_ITEMS, Vertex, edges_in_range};
use crate::crossing::{crossing_count, crossings};

verus! {

/// `layers[l]` lists, left to right, the vertices of level `l + 1`: each
/// vertex stands exactly once, in the list of its own level.
pub open spec fn layers_wf(g: &Graph, layers: Seq<Seq<usize>>) -> bool {
    &&& forall|l: int, i: int|
        0 <= l < layers.len() && 0 <= i < layers[l].len() ==> (#[trigger] layers[l][i])
            < g.vertices@.len() && g.vertices@[layers[l][i] as int].level == l + 1
    &&& forall|l: int|
        0 <= l < layers.len() ==> (#[trigger] layers[l]).no_duplicates() && layers[l].len()
            <= g.vertices@.len()
    &&& forall|v: int|
        0 <= v < g.vertices@.len() ==> 1 <= (#[trigger] g.vertices@[v]).level <= layers.len()
            && layers[g.vertices@[v].level - 1].contains(v as usize)
}

pub open spec fn layers_view(layers: &Vec<Vec<usize>>) -> Seq<Seq<usize>> {
    Seq::new(layers@.len(), |l: int| layers@[l]@)
}

/// The layers in vertex order: each level lists its vertices by index.
pub fn get_perm_levels(g: &Graph, max_level: usize) -> (r: Vec<Vec<usize>>)
    requires
        g.wf(),
        forall|v: int| 0 <= v < g.vertices@.len() ==> 1 <= #[trigger] g.vertices@[v].level <= max_level,
    ensures
        r@.len() == max_level,
        layers_wf(g, layers_view(&r)),
        forall|l: int, i: int, j: int|
            0 <= l < max_level && 0 <= i < j < r@[l]@.len() ==> r@[l]@[i] < r@[l]@[j],
{
    let n = g.vertices.len();
    let mut r: Vec<Vec<usize>> = Vec::new();
    let mut l: usize = 0;
    while l < max_level
        invariant
            l <= max_level,
            r@.len() == l,
            forall|k: int| 0 <= k < l ==> (#[trigger] r@[k])@.len() == 0,
        decreases max_level - l,
    {
        r.push(Vec::new());
        l = l + 1;
    }
    let mut v: usize = 0;
    while v < n
        invariant
            g.wf(),
            n == g.vertices@.len(),
            forall|u: int| 0 <= u < n ==> 1 <= #[trigger] g.vertices@[u].level <= max_level,
            v <= n,
            r@.len() == max_level,
            forall|k: int, i: int|
                0 <= k < max_level && 0 <= i < r@[k]@.len() ==> (#[trigger] r@[k]@[i]) < v
                    && g.vertices@[r@[k]@[i] as int].level == k + 1,
            forall|k: int, i: int, j: int|
                0 <= k < max_level && 0 <= i < j < r@[k]@.len() ==> r@[k]@[i] < r@[k]@[j],
            forall|u: int|
                0 <= u < v ==> r@[g.vertices@[u].level - 1]@.contains(u as usize),
            forall|k: int| 0 <= k < max_level ==> (#[trigger] r@[k])@.len() <= v,
        decreases n - v,
    {
        let lv = g.vertices[v].level - 1;
        let mut row = r[lv].clone();
        let ghost old_r = r@;
        row.push(v);
        r.set(lv, row);
        proof {
            assert forall|u: int| 0 <= u < v + 1 implies r@[g.vertices@[u].level - 1]@.contains(u as usize) by {
                if u < v {
                    let k = g.vertices@[u].level - 1;
                    assert(old_r[k]@.contains(u as usize));
                    let w = choose|w: int| 0 <= w < old_r[k]@.len() && old_r[k]@[w] == u as usize;
                    assert(r@[k]@[w] == u as usize);
                } else {
                    assert(r@[lv as int]@[r@[lv as int]@.len() - 1] == v);
                }
            }
        }
        v = v + 1;
    }
    proof {
        let lay = layers_view(&r);
        assert forall|k: int| 0 <= k < lay.len() implies (#[trigger] lay[k]).no_duplicates() by {
            assert forall|i: int, j: int| 0 <= i < lay[k].len() && 0 <= j < lay[k].len() && i != j implies lay[k][i]
                != lay[k][j] by {
                if i < j {
                    assert(r@[k]@[i] < r@[k]@[j]);
                } else {
                    assert(r@[k]@[j] < r@[k]@[i]);
                }
            }
        }
    }
    r
}

/// Position of every vertex within its layer.
pub fn get_positions(g: &Graph, layers: &Vec<Vec<usize>>) -> (r: Vec<usize>)
    requires
        g.wf(),
        layers_wf(g, layers_view(layers)),
    ensures
        r@.len() == g.vertices@.len(),
        forall|v: int| 0 <= v < r@.len() ==> r@[v] < MAX_ITEMS,
        forall|l: int, i: int|
            0 <= l < layers@.len() && 0 <= i < layers@[l]@.len() ==> r@[#[trigger] layers@[l]@[i] as int]
                == i,
{
    let n = g.vertices.len();
    let mut r: Vec<usize> = Vec::new();
    let mut k: usize = 0;
    while k < n
        invariant
            k <= n,
            r@.len() == k,
            forall|v: int| 0 <= v < r@.len() ==> r@[v] == 0,
        decreases n - k,
    {
        r.push(0);
        k = k + 1;
    }
    let mut l: usize = 0;
    while l < layers.len()
        invariant
            g.wf(),
            n == g.vertices@.len(),
            layers_wf(g, layers_view(layers)),
            l <= layers@.len(),
            r@.len() == n,
            forall|v: int| 0 <= v < r@.len() ==> r@[v] < MAX_ITEMS,
            forall|a: int, i: int|
                0 <= a < l && 0 <= i < layers@[a]@.len() ==> r@[#[trigger] layers@[a]@[i] as int] == i,
        decreases layers@.len() - l,
    {
        let mut i: usize = 0;
        while i < layers[l].len()
            invariant
                g.wf(),
                n == g.vertices@.len(),
                layers_wf(g, layers_view(layers)),
                l < layers@.len(),
                i <= layers@[l as int]@.len(),
                r@.len() == n,
                forall|v: int| 0 <= v < r@.len() ==> r@[v] < MAX_ITEMS,
                forall|a: int, j: int|
                    0 <= a < l && 0 <= j < layers@[a]@.len() ==> r@[#[trigger] layers@[a]@[j] as int] == j,
                forall|j: int| 0 <= j < i ==> r@[#[trigger] layers@[l as int]@[j] as int] == j,
            decreases layers@[l as int]@.len() - i,
        {
            let v = layers[l][i];
            proof {
                assert(layers_view(layers)[l as int].len() <= n);
                assert(layers_view(layers)[l as int][i as int] == v);
                assert forall|a: int, j: int|
                    0 <= a < l && 0 <= j < layers@[a]@.len() implies layers@[a]@[j] != v by {
                    assert(layers_view(layers)[a][j] == layers@[a]@[j]);
                    assert(g.vertices@[layers_view(layers)[a][j] as int].level == a + 1);
                }
                assert forall|j: int| 0 <= j < i implies layers@[l as int]@[j] != v by {
                    assert(layers_view(layers)[l as int][j] == layers@[l as int]@[j]);
                    assert(layers_view(layers)[l as int].no_duplicates());
                }
            }
            let ghost r0 = r@;
            r.set(v, i);
            proof {
                assert forall|a: int, j: int|
                    0 <= a < l && 0 <= j < layers@[a]@.len() implies r@[#[trigger] layers@[a]@[j] as int] == j by {
                    assert(layers_view(layers)[a][j] == layers@[a]@[j]);
                    assert(r0[layers@[a]@[j] as int] == j);
                }
                assert forall|j: int| 0 <= j < i + 1 implies r@[#[trigger] layers@[l as int]@[j] as int] == j by {
                    if j < i {
                        assert(r0[layers@[l as int]@[j] as int] == j);
                    }
                }
            }
            i = i + 1;
        }
        l = l + 1;
    }
    r
}

/// The (upper, lower) position pairs of the edges leaving level `l`, in
/// edge order.
pub open spec fn boundary_lines(vs: Seq<Vertex>, es: Seq<Edge>, pos: Seq<usize>, l: int) -> Seq<
    (usize, usize),
>
    decreases es.len(),
{
    if es.len() == 0 {
        seq![]
    } else {
        let e = es.last();
        let rest = boundary_lines(vs, es.drop_last(), pos, l);
        if vs[e.source as int].level == l {
            rest.push((pos[e.source as int], pos[e.target as int]))
        } else {
            rest
        }
    }
}

/// Crossings summed over the boundaries below levels `1 .. top - 1`.
pub open spec fn crossing_total(vs: Seq<Vertex>, es: Seq<Edge>, pos: Seq<usize>, top: int) -> nat
    decreases top,
{
    if top <= 1 {
        0
    } else {
        crossing_total(vs, es, pos, top - 1) + crossing_count(boundary_lines(vs, es, pos, top - 1))
    }
}

/// Crossings of the whole graph under the given layers.
pub open spec fn layers_crossings(g: &Graph, layers: Seq<Seq<usize>>) -> nat {
    crossing_total(g.vertices@, g.edges@, positions_of(g, layers), layers.len() as int)
}

/// Position of each vertex in the list of its level.
pub open spec fn positions_of(g: &Graph, layers: Seq<Seq<usize>>) -> Seq<usize> {
    Seq::new(
        g.vertices@.len(),
        |v: int| layers[g.vertices@[v].level - 1].index_of(v as usize) as usize,
    )
}

proof fn lemma_boundary_lines_len(vs: Seq<Vertex>, es: Seq<Edge>, pos: Seq<usize>, l: int)
    ensures
        boundary_lines(vs, es, pos, l).len() <= es.len(),
    decreases es.len(),
{
    if es.len() > 0 {
        lemma_boundary_lines_len(vs, es.drop_last(), pos, l);
    }
}

/// Positions computed from well-formed layers agree with `positions_of`.
pub proof fn lemma_positions_agree(g: &Graph, layers: Seq<Seq<usize>>, pos: Seq<usize>)
    requires
        g.wf(),
        layers_wf(g, layers),
        pos.len() == g.vertices@.len(),
        forall|l: int, i: int| 0 <= l < layers.len() && 0 <= i < layers[l].len() ==> pos[#[trigger] layers[l][i] as int] == i,
    ensures
        pos == positions_of(g, layers),
{
    assert forall|v: int| 0 <= v < pos.len() implies pos[v] == positions_of(g, layers)[v] by {
        let l = g.vertices@[v].level - 1;
        assert(layers[l].contains(v as usize));
        let i = layers[l].index_of(v as usize);
        assert(0 <= i < layers[l].len() && layers[l][i] == v as usize);
        assert(pos[layers[l][i] as int] == i);
    }
    assert(pos =~= positions_of(g, layers));
}

/// Lines of the edges leaving level `l`.
fn level_lines(g: &Graph, pos: &Vec<usize>, l: usize) -> (r: Vec<(usize, usize)>)
    requires
        g.wf(),
        pos@.len() == g.vertices@.len(),
    ensures
        r@ == boundary_lines(g.vertices@, g.edges@, pos@, l as int),
        r@.len() <= g.edges@.len(),
{
    let mut r: Vec<(usize, usize)> = Vec::new();
    let mut i: usize = 0;
    while i < g.edges.len()
        invariant
            g.wf(),
            pos@.len() == g.vertices@.len(),
            i <= g.edges@.len(),
            r@ == boundary_lines(g.vertices@, g.edges@.take(i as int), pos@, l as int),
        decreases g.edges@.len() - i,
    {
        let e = g.edges[i];
        proof {
            assert(g.edges@.take(i + 1).drop_last() =~= g.edges@.take(i as int));
        }
        if g.vertices[e.source].level == l {
            r.push((pos[e.source], pos[e.target]));
        }
        i = i + 1;
    }
    proof {
        assert(g.edges@.take(i as int) =~= g.edges@);
        lemma_boundary_lines_len(g.vertices@, g.edges@, pos@, l as int);
    }
    r
}

/// Crossing count of every boundary: entry `k` is the boundary below
/// level `k + 1`.
pub fn cal_crossings_levels(g: &Graph, pos: &Vec<usize>, max_level: usize) -> (r: Vec<u64>)
    requires
        g.wf(),
        pos@.len() == g.vertices@.len(),
    ensures
        r@.len() == if max_level > 0 { max_level - 1 } else { 0 },
        forall|k: int|
            0 <= k < r@.len() ==> r@[k] == crossing_count(
                boundary_lines(g.vertices@, g.edges@, pos@, k + 1),
            ),
{
    let mut r: Vec<u64> = Vec::new();
    let mut l: usize = 1;
    while l < max_level
        invariant
            g.wf(),
            pos@.len() == g.vertices@.len(),
            1 <= l,
            max_level > 0 ==> l <= max_level,
            max_level == 0 ==> l == 1,
            r@.len() == l - 1,
            forall|k: int|
                0 <= k < r@.len() ==> r@[k] == crossing_count(
                    boundary_lines(g.vertices@, g.edges@, pos@, k + 1),
                ),
        decreases max_level - l,
    {
        let lines = level_lines(g, pos, l);
        let c = crossings(&lines);
        r.push(c);
        l = l + 1;
    }
    r
}

/// Total crossing count over all boundaries.
pub fn cal_crossings(g: &Graph, pos: &Vec<usize>, max_level: usize) -> (r: u128)
    requires
        g.wf(),
        pos@.len() == g.vertices@.len(),
        max_level <= MAX_ITEMS,
    ensures
        r == crossing_total(g.vertices@, g.edges@, pos@, max_level as int),
{
    let mut cnt: u128 = 0;
    let mut l: usize = 1;
    while l < max_level
        invariant
            g.wf(),
            pos@.len() == g.vertices@.len(),
            max_level <= MAX_ITEMS,
            1 <= l,
            max_level > 0 ==> l <= max_level,
            cnt == crossing_total(g.vertices@, g.edges@, pos@, l as int),
            cnt <= (l as u128) * 0x1_0000_0000_0000_0000u128,
        decreases max_level - l,
    {
        let lines = level_lines(g, pos, l);
        let c = crossings(&lines);
        cnt = cnt + c as u128;
        l = l + 1;
    }
    if max_level == 0 {
        return 0;
    }
    cnt
}

/// Within every layer the positions of its vertices are exactly the
/// numbers `0 .. n - 1` for a layer of `n` vertices, each taken by one
/// vertex.
pub proof fn lemma_layer_positions_are_permutation(g: &Graph, layers: Seq<Seq<usize>>, l: int)
    requires
        g.wf(),
        layers_wf(g, layers),
        0 <= l < layers.len(),
    ensures
        forall|v: int|
            0 <= v < g.vertices@.len() && g.vertices@[v].level == l + 1 ==> (#[trigger] positions_of(g, layers)[v])
                < layers[l].len(),
        forall|v: int, w: int|
            0 <= v < g.vertices@.len() && 0 <= w < g.vertices@.len() && v != w && g.vertices@[v].level == l + 1
                && g.vertices@[w].level == l + 1 ==> #[trigger] positions_of(g, layers)[v]
                != #[trigger] positions_of(g, layers)[w],
        forall|i: int|
            0 <= i < layers[l].len() ==> (#[trigger] layers[l][i]) < g.vertices@.len()
                && g.vertices@[layers[l][i] as int].level == l + 1 && positions_of(g, layers)[layers[l][i] as int] == i,
{
    let pos = positions_of(g, layers);
    assert forall|v: int|
        0 <= v < g.vertices@.len() && g.vertices@[v].level == l + 1 implies layers[l][pos[v] as int] == v
            && pos[v] < layers[l].len() by {
        assert(layers[l].contains(v as usize));
    }
    assert forall|i: int| 0 <= i < layers[l].len() implies (#[trigger] layers[l][i]) < g.vertices@.len()
        && g.vertices@[layers[l][i] as int].level == l + 1 && pos[layers[l][i] as int] == i by {
        let v = layers[l][i] as int;
        assert(g.vertices@[v].level == l + 1);
        assert(layers[l][pos[v] as int] == v);
        assert(layers[l].no_duplicates());
        assert(pos[v] == i);
    }
}

proof fn lemma_lines_same(vs1: Seq<Vertex>, es1: Seq<Edge>, vs2: Seq<Vertex>, es2: Seq<Edge>, pos: Seq<usize>, l: int)
    requires
        vs1.len() == vs2.len(),
        forall|v: int| 0 <= v < vs1.len() ==> (#[trigger] vs1[v]).level == vs2[v].level,
        es1.len() == es2.len(),
        forall|i: int| 0 <= i < es1.len() ==> (#[trigger] es1[i]).source == es2[i].source && es1[i].target == es2[i].target,
        forall|i: int| 0 <= i < es1.len() ==> (#[trigger] es1[i]).source < vs1.len(),
    ensures
        boundary_lines(vs1, es1, pos, l) == boundary_lines(vs2, es2, pos, l),
    decreases es1.len(),
{
    if es1.len() > 0 {
        lemma_lines_same(vs1, es1.drop_last(), vs2, es2.drop_last(), pos, l);
        assert(es1.last() == es1[es1.len() - 1]);
    }
}

proof fn lemma_total_same(vs1: Seq<Vertex>, es1: Seq<Edge>, vs2: Seq<Vertex>, es2: Seq<Edge>, pos: Seq<usize>, top: int)
    requires
        vs1.len() == vs2.len(),
        forall|v: int| 0 <= v < vs1.len() ==> (#[trigger] vs1[v]).level == vs2[v].level,
        es1.len() == es2.len(),
        forall|i: int| 0 <= i < es1.len() ==> (#[trigger] es1[i]).source == es2[i].source && es1[i].target == es2[i].target,
        forall|i: int| 0 <= i < es1.len() ==> (#[trigger] es1[i]).source < vs1.len(),
    ensures
        crossing_total(vs1, es1, pos, top) == crossing_total(vs2, es2, pos, top),
    decreases top,
{
    if top > 1 {
        lemma_total_same(vs1, es1, vs2, es2, pos, top - 1);
        lemma_lines_same(vs1, es1, vs2, es2, pos, top - 1);
    }
}

/// The crossing count depends only on the levels and the edge endpoints.
pub proof fn lemma_crossings_same(g1: &Graph, g2: &Graph, layers: Seq<Seq<usize>>)
    requires
        g1.wf(),
        g1.vertices@.len() == g2.vertices@.len(),
        forall|v: int| 0 <= v < g1.vertices@.len() ==> (#[trigger] g1.vertices@[v]).level == g2.vertices@[v].level,
        g1.edges@.len() == g2.edges@.len(),
        forall|i: int| 0 <= i < g1.edges@.len() ==> (#[trigger] g1.edges@[i]).source == g2.edges@[i].source && g1.edges@[i].target == g2.edges@[i].target,
    ensures
        layers_crossings(g1, layers) == layers_crossings(g2, layers),
{
    assert(positions_of(g1, layers) =~= positions_of(g2, layers));
    lemma_total_same(g1.vertices@, g1.edges@, g2.vertices@, g2.edges@, positions_of(g1, layers), layers.len() as int);
}

} // verus!

//! The restarted barycenter search for layer orders with few crossings.

use vstd::prelude::*;
use crate::graph::{Edge, Graph, MAX_ITEMS, edges_in_range};
use rand::Rng;
use crate::order::{
    cal_crossings, crossing_total, get_positions, layers_crossings, layers_view, layers_wf,
    lemma_positions_agree, positions_of,
};

verus! {

/// Number of neighbours of `v` on the side above it (its predecessors) or
/// below it (its successors).
pub open spec fn nb_count(es: Seq<Edge>, v: usize, above: bool) -> nat
    decreases es.len(),
{
    if es.len() == 0 {
        0
    } else {
        let e = es.last();
        nb_count(es.drop_last(), v, above) + if (above && e.target == v) || (!above && e.source
            == v) {
            1nat
        } else {
            0nat
        }
    }
}

/// Sum of the positions of those neighbours.
pub open spec fn nb_sum(es: Seq<Edge>, pos: Seq<usize>, v: usize, above: bool) -> nat
    decreases es.len(),
{
    if es.len() == 0 {
        0
    } else {
        let e = es.last();
        nb_sum(es.drop_last(), pos, v, above) + if above && e.target == v {
            pos[e.source as int] as nat
        } else if !above && e.source == v {
            pos[e.target as int] as nat
        } else {
            0nat
        }
    }
}

/// Barycenter rank of `v` as a fraction (numerator, denominator): the mean
/// position of its neighbours on the given side, or its previous rank
/// `prev[v]` when it has none there.
pub open spec fn rank(es: Seq<Edge>, pos: Seq<usize>, prev: Seq<(u128, u128)>, v: usize, above: bool) -> (int, int) {
    if nb_count(es, v, above) == 0 {
        key_int(prev[v as int])
    } else {
        (nb_sum(es, pos, v, above) as int, nb_count(es, v, above) as int)
    }
}

/// `a` is at most `b`, both fractions with positive denominators.
pub open spec fn rank_le(a: (int, int), b: (int, int)) -> bool {
    a.0 * b.1 <= b.0 * a.1
}

/// `a` lists the same values as `b`, each once.
pub open spec fn perm_of(a: Seq<usize>, b: Seq<usize>) -> bool {
    &&& a.len() == b.len()
    &&& a.no_duplicates()
    &&& forall|x: usize| a.contains(x) <==> b.contains(x)
}

proof fn lemma_nb_bounds(es: Seq<Edge>, pos: Seq<usize>, v: usize, above: bool)
    requires
        edges_in_range(pos.len(), es),
        forall|u: int| 0 <= u < pos.len() ==> pos[u] < MAX_ITEMS,
    ensures
        nb_count(es, v, above) <= es.len(),
        nb_sum(es, pos, v, above) <= es.len() * MAX_ITEMS,
    decreases es.len(),
{
    if es.len() > 0 {
        lemma_nb_bounds(es.drop_last(), pos, v, above);
        assert(edges_in_range(pos.len(), es.drop_last()));
        let k = es.len() - 1;
        assert(k * MAX_ITEMS + MAX_ITEMS == es.len() * MAX_ITEMS) by (nonlinear_arith)
            requires k == es.len() - 1;
    }
}

/// Rank of `v` from the given positions.
fn rank_of(g: &Graph, pos: &Vec<usize>, prev: &Vec<(u128, u128)>, v: usize, above: bool) -> (r: (u128, u128))
    requires
        g.wf(),
        pos@.len() == g.vertices@.len(),
        prev@.len() == g.vertices@.len(),
        forall|u: int| 0 <= u < pos@.len() ==> pos@[u] < MAX_ITEMS,
        key_ok(prev@[v as int]),
        v < g.vertices@.len(),
    ensures
        key_int(r) == rank(g.edges@, pos@, prev@, v, above),
        key_ok(r),
{
    let mut sum: u128 = 0;
    let mut cnt: u128 = 0;
    let mut i: usize = 0;
    while i < g.edges.len()
        invariant
            g.wf(),
            pos@.len() == g.vertices@.len(),
            forall|u: int| 0 <= u < pos@.len() ==> pos@[u] < MAX_ITEMS,
            i <= g.edges@.len(),
            sum == nb_sum(g.edges@.take(i as int), pos@, v, above),
            cnt == nb_count(g.edges@.take(i as int), v, above),
        decreases g.edges@.len() - i,
    {
        let e = g.edges[i];
        proof {
            let t = g.edges@.take(i + 1);
            assert(t.drop_last() =~= g.edges@.take(i as int));
            assert(edges_in_range(pos@.len(), t));
            lemma_nb_bounds(t, pos@, v, above);
            assert(t.len() * MAX_ITEMS <= MAX_ITEMS * MAX_ITEMS) by (nonlinear_arith)
                requires t.len() <= MAX_ITEMS;
        }
        if above && e.target == v {
            sum = sum + pos[e.source] as u128;
            cnt = cnt + 1;
        } else if !above && e.source == v {
            sum = sum + pos[e.target] as u128;
            cnt = cnt + 1;
        }
        i = i + 1;
    }
    proof {
        assert(g.edges@.take(i as int) =~= g.edges@);
        lemma_nb_bounds(g.edges@, pos@, v, above);
        assert(g.edges@.len() * MAX_ITEMS <= MAX_ITEMS * MAX_ITEMS) by (nonlinear_arith)
            requires g.edges@.len() <= MAX_ITEMS;
    }
    if cnt == 0 {
        prev[v]
    } else {
        (sum, cnt)
    }
}

pub open spec fn key_ok(k: (u128, u128)) -> bool {
    1 <= k.1 <= MAX_ITEMS && k.0 <= 0x1_0000_0000_0000_0000
}

fn ranks_ordered(a: (u128, u128), b: (u128, u128)) -> (r: bool)
    requires
        key_ok(a),
        key_ok(b),
    ensures
        r == rank_le((a.0 as int, a.1 as int), (b.0 as int, b.1 as int)),
{
    proof {
        assert(a.0 * b.1 <= 0x1_0000_0000_0000_0000 * MAX_ITEMS) by (nonlinear_arith)
            requires a.0 <= 0x1_0000_0000_0000_0000, b.1 <= MAX_ITEMS;
        assert(b.0 * a.1 <= 0x1_0000_0000_0000_0000 * MAX_ITEMS) by (nonlinear_arith)
            requires b.0 <= 0x1_0000_0000_0000_0000, a.1 <= MAX_ITEMS;
    }
    a.0 * b.1 <= b.0 * a.1
}

pub open spec fn key_int(k: (u128, u128)) -> (int, int) {
    (k.0 as int, k.1 as int)
}

proof fn lemma_rank_trans(a: (int, int), b: (int, int), c: (int, int))
    requires
        a.1 > 0,
        b.1 > 0,
        c.1 > 0,
        rank_le(a, b),
        rank_le(b, c),
    ensures
        rank_le(a, c),
{
    assert(a.0 * b.1 * c.1 <= b.0 * a.1 * c.1) by (nonlinear_arith)
        requires a.0 * b.1 <= b.0 * a.1, c.1 > 0;
    assert(b.0 * c.1 * a.1 <= c.0 * b.1 * a.1) by (nonlinear_arith)
        requires b.0 * c.1 <= c.0 * b.1, a.1 > 0;
    assert(b.0 * a.1 * c.1 == b.0 * c.1 * a.1) by (nonlinear_arith);
    assert(a.0 * b.1 * c.1 <= c.0 * b.1 * a.1);
    assert(a.0 * c.1 * b.1 <= c.0 * a.1 * b.1) by (nonlinear_arith)
        requires a.0 * b.1 * c.1 <= c.0 * b.1 * a.1;
    assert(a.0 * c.1 <= c.0 * a.1) by (nonlinear_arith)
        requires a.0 * c.1 * b.1 <= c.0 * a.1 * b.1, b.1 > 0;
}

proof fn lemma_rank_lt_trans(a: (int, int), b: (int, int), c: (int, int))
    requires
        a.1 > 0,
        b.1 > 0,
        c.1 > 0,
        !rank_le(b, a),
        rank_le(b, c),
    ensures
        !rank_le(c, a),
{
    assert(a.0 * b.1 * c.1 < b.0 * a.1 * c.1) by (nonlinear_arith)
        requires a.0 * b.1 < b.0 * a.1, c.1 > 0;
    assert(b.0 * c.1 * a.1 <= c.0 * b.1 * a.1) by (nonlinear_arith)
        requires b.0 * c.1 <= c.0 * b.1, a.1 > 0;
    assert(b.0 * a.1 * c.1 == b.0 * c.1 * a.1) by (nonlinear_arith);
    assert(a.0 * b.1 * c.1 < c.0 * b.1 * a.1);
    assert(a.0 * c.1 * b.1 < c.0 * a.1 * b.1) by (nonlinear_arith)
        requires a.0 * b.1 * c.1 < c.0 * b.1 * a.1;
    assert(a.0 * c.1 < c.0 * a.1) by (nonlinear_arith)
        requires a.0 * c.1 * b.1 < c.0 * a.1 * b.1, b.1 > 0;
}

proof fn lemma_insert_sorted(keys: Seq<(u128, u128)>, o: Seq<usize>, p: int, i: usize)
    requires
        forall|j: int| 0 <= j < keys.len() ==> key_ok(#[trigger] keys[j]),
        0 <= p <= o.len(),
        i < keys.len(),
        forall|q: int| 0 <= q < o.len() ==> (#[trigger] o[q]) < i,
        p > 0 ==> rank_le(key_int(keys[o[p - 1] as int]), key_int(keys[i as int])),
        p < o.len() ==> !rank_le(key_int(keys[o[p] as int]), key_int(keys[i as int])),
        forall|a: int, b: int|
            0 <= a < b < o.len() ==> rank_le(key_int(keys[#[trigger] o[a] as int]), key_int(keys[#[trigger] o[b] as int])),
        forall|a: int, b: int|
            0 <= a < b < o.len() && rank_le(key_int(keys[#[trigger] o[b] as int]), key_int(keys[#[trigger] o[a] as int])) ==> o[a] < o[b],
    ensures
        forall|a: int, b: int|
            0 <= a < b < o.insert(p, i).len() ==> rank_le(key_int(keys[#[trigger] o.insert(p, i)[a] as int]), key_int(keys[#[trigger] o.insert(p, i)[b] as int])),
        forall|a: int, b: int|
            0 <= a < b < o.insert(p, i).len() && rank_le(key_int(keys[#[trigger] o.insert(p, i)[b] as int]), key_int(keys[#[trigger] o.insert(p, i)[a] as int])) ==> o.insert(p, i)[a] < o.insert(p, i)[b],
{
    o.insert_ensures(p, i);
    if p < o.len() {
        let k0 = key_int(keys[o[p] as int]);
        let x = key_int(keys[i as int]);
        assert(rank_le(x, k0));
    }
    let x = key_int(keys[i as int]);
    assert forall|a: int, b: int|
        0 <= a < b < o.insert(p, i).len() implies rank_le(key_int(keys[#[trigger] o.insert(p, i)[a] as int]), key_int(keys[#[trigger] o.insert(p, i)[b] as int])) by {
        let ka = key_int(keys[o.insert(p, i)[a] as int]);
        let kb = key_int(keys[o.insert(p, i)[b] as int]);
        if b < p {
            assert(o.insert(p, i)[a] == o[a] && o.insert(p, i)[b] == o[b]);
        } else if b == p {
            assert(o.insert(p, i)[a] == o[a]);
            if a < p - 1 {
        lemma_rank_trans(ka, key_int(keys[o[p - 1] as int]), x);
            }
        } else if a == p {
            assert(o.insert(p, i)[b] == o[b - 1]);
            let k0 = key_int(keys[o[p as int] as int]);
            assert(rank_le(x, k0));
            if b - 1 > p {
        lemma_rank_trans(x, k0, kb);
            }
        } else if a < p {
            assert(o.insert(p, i)[a] == o[a] && o.insert(p, i)[b] == o[b - 1]);
        } else {
            assert(o.insert(p, i)[a] == o[a - 1] && o.insert(p, i)[b] == o[b - 1]);
        }
    }
    assert forall|a: int, b: int|
        0 <= a < b < o.insert(p, i).len() && rank_le(key_int(keys[#[trigger] o.insert(p, i)[b] as int]), key_int(keys[#[trigger] o.insert(p, i)[a] as int])) implies o.insert(p, i)[a] < o.insert(p, i)[b] by {
        if b < p {
            assert(o.insert(p, i)[a] == o[a] && o.insert(p, i)[b] == o[b]);
        } else if b == p {
            assert(o.insert(p, i)[a] == o[a]);
        } else if a == p {
            assert(o.insert(p, i)[b] == o[b - 1]);
            let k0 = key_int(keys[o[p as int] as int]);
            let kb = key_int(keys[o[b - 1] as int]);
            if b - 1 > p {
        lemma_rank_lt_trans(x, k0, kb);
            }
        } else if a < p {
            assert(o.insert(p, i)[a] == o[a] && o.insert(p, i)[b] == o[b - 1]);
        } else {
            assert(o.insert(p, i)[a] == o[a - 1] && o.insert(p, i)[b] == o[b - 1]);
        }
    }
}

/// Stable insertion sort of the indices `0 .. keys.len()` by their keys:
/// returns every index once, in non-decreasing key order.
fn sort_by_rank(keys: &Vec<(u128, u128)>) -> (r: Vec<usize>)
    requires
        forall|i: int| 0 <= i < keys@.len() ==> key_ok(#[trigger] keys@[i]),
    ensures
        r@.len() == keys@.len(),
        r@.no_duplicates(),
        forall|q: int| 0 <= q < r@.len() ==> (#[trigger] r@[q]) < keys@.len(),
        forall|j: usize| j < keys@.len() ==> r@.contains(j),
        forall|q: int|
            0 <= q < r@.len() - 1 ==> rank_le(
                key_int(keys@[#[trigger] r@[q] as int]),
                key_int(keys@[r@[q + 1] as int]),
            ),
        forall|a: int, b: int|
            0 <= a < b < r@.len() && rank_le(key_int(keys@[#[trigger] r@[b] as int]), key_int(keys@[#[trigger] r@[a] as int])) ==> r@[a] < r@[b],
{
    let mut out: Vec<usize> = Vec::new();
    let mut i: usize = 0;
    while i < keys.len()
        invariant
            forall|j: int| 0 <= j < keys@.len() ==> key_ok(#[trigger] keys@[j]),
            i <= keys@.len(),
            out@.len() == i,
            out@.no_duplicates(),
            forall|q: int| 0 <= q < out@.len() ==> (#[trigger] out@[q]) < i,
            forall|j: usize| j < i ==> out@.contains(j),
            forall|a: int, b: int|
                0 <= a < b < out@.len() ==> rank_le(key_int(keys@[#[trigger] out@[a] as int]), key_int(keys@[#[trigger] out@[b] as int])),
            forall|a: int, b: int|
                0 <= a < b < out@.len() && rank_le(key_int(keys@[#[trigger] out@[b] as int]), key_int(keys@[#[trigger] out@[a] as int])) ==> out@[a] < out@[b],
        decreases keys@.len() - i,
    {
        let mut p: usize = 0;
        while p < out.len() && ranks_ordered(keys[out[p]], keys[i])
            invariant
                forall|j: int| 0 <= j < keys@.len() ==> key_ok(#[trigger] keys@[j]),
                i < keys@.len(),
                p <= out@.len(),
                forall|q: int| 0 <= q < out@.len() ==> (#[trigger] out@[q]) < i,
                p > 0 ==> rank_le(key_int(keys@[out@[p - 1] as int]), key_int(keys@[i as int])),
            decreases out@.len() - p,
        {
            p = p + 1;
        }
        let ghost o = out@;
        proof {
            o.insert_ensures(p as int, i);
        }
        out.insert(p, i);
        proof {
            assert forall|j: usize| j < i + 1 implies out@.contains(j) by {
                if j < i {
                    assert(o.contains(j));
                    let q = choose|q: int| 0 <= q < o.len() && o[q] == j;
                    if q < p {
                        assert(out@[q] == j);
                    } else {
                        assert(out@[q + 1] == j);
                    }
                } else {
                    assert(out@[p as int] == j);
                }
            }
            assert forall|a: int, b: int| 0 <= a < out@.len() && 0 <= b < out@.len() && a != b implies out@[a]
                != out@[b] by {
                if a != p && b != p {
                    let a0 = if a < p { a } else { a - 1 };
                    let b0 = if b < p { b } else { b - 1 };
                    assert(out@[a] == o[a0] && out@[b] == o[b0]);
                } else if a == p {
                    let b0 = if b < p { b } else { b - 1 };
                    assert(out@[b] == o[b0]);
                } else {
                    let a0 = if a < p { a } else { a - 1 };
                    assert(out@[a] == o[a0]);
                }
            }
            lemma_insert_sorted(keys@, o, p as int, i);
            assert(out@ == o.insert(p as int, i));
        }
        i = i + 1;
    }
    assert forall|q: int|
        0 <= q < out@.len() - 1 implies rank_le(
        key_int(keys@[#[trigger] out@[q] as int]),
        key_int(keys@[out@[q + 1] as int]),
    ) by {
        assert(rank_le(key_int(keys@[out@[q] as int]), key_int(keys@[out@[q + 1] as int])));
    }
    out
}

fn copy_row(v: &Vec<usize>) -> (r: Vec<usize>)
    ensures
        r@ == v@,
{
    let mut r: Vec<usize> = Vec::new();
    let mut i: usize = 0;
    while i < v.len()
        invariant
            i <= v@.len(),
            r@ == v@.take(i as int),
        decreases v@.len() - i,
    {
        r.push(v[i]);
        i = i + 1;
        assert(r@ =~= v@.take(i as int));
    }
    assert(v@.take(i as int) =~= v@);
    r
}

/// A copy of the layers, kept as a snapshot.
pub fn copy_layers(layers: &Vec<Vec<usize>>) -> (r: Vec<Vec<usize>>)
    ensures
        layers_view(&r) == layers_view(layers),
{
    let mut r: Vec<Vec<usize>> = Vec::new();
    let mut i: usize = 0;
    while i < layers.len()
        invariant
            i <= layers@.len(),
            r@.len() == i,
            forall|k: int| 0 <= k < i ==> (#[trigger] r@[k])@ == layers@[k]@,
        decreases layers@.len() - i,
    {
        r.push(copy_row(&layers[i]));
        i = i + 1;
    }
    assert(layers_view(&r) =~= layers_view(layers));
    r
}

/// Replacing one layer by a reordering of itself keeps the layers well formed.
proof fn lemma_replace_layer(g: &Graph, layers: Seq<Seq<usize>>, l: int, row: Seq<usize>)
    requires
        layers_wf(g, layers),
        0 <= l < layers.len(),
        perm_of(row, layers[l]),
    ensures
        layers_wf(g, layers.update(l, row)),
{
    let nl = layers.update(l, row);
    assert forall|k: int, i: int|
        0 <= k < nl.len() && 0 <= i < nl[k].len() implies (#[trigger] nl[k][i]) < g.vertices@.len()
            && g.vertices@[nl[k][i] as int].level == k + 1 by {
        if k == l {
            assert(layers[l].contains(row[i]));
            let j = choose|j: int| 0 <= j < layers[l].len() && layers[l][j] == row[i];
            assert(layers[l][j] < g.vertices@.len());
        }
    }
    assert forall|v: int|
        0 <= v < g.vertices@.len() implies 1 <= (#[trigger] g.vertices@[v]).level <= nl.len()
            && nl[g.vertices@[v].level - 1].contains(v as usize) by {
        if g.vertices@[v].level - 1 == l {
            assert(row.contains(v as usize));
        }
    }
}

proof fn lemma_swap_perm(s: Seq<usize>, orig: Seq<usize>, i: int, j: int)
    requires
        perm_of(s, orig),
        0 <= i < s.len(),
        0 <= j < s.len(),
    ensures
        perm_of(s.update(i, s[j]).update(j, s[i]), orig),
{
    let t = s.update(i, s[j]).update(j, s[i]);
    assert forall|x: usize| t.contains(x) <==> orig.contains(x) by {
        if t.contains(x) {
            let q = choose|q: int| 0 <= q < t.len() && t[q] == x;
            let w = if q == i { j } else if q == j { i } else { q };
            assert(s[w] == x);
        }
        if orig.contains(x) {
            assert(s.contains(x));
            let q = choose|q: int| 0 <= q < s.len() && s[q] == x;
            let w = if q == i { j } else if q == j { i } else { q };
            assert(t[w] == x);
        }
    }
}

/// Every rank is a fraction with a positive denominator in range.
pub open spec fn ranks_ok(g: &Graph, prev: Seq<(u128, u128)>) -> bool {
    &&& prev.len() == g.vertices@.len()
    &&& forall|v: int| 0 <= v < prev.len() ==> key_ok(#[trigger] prev[v])
}

/// Ranks to start a search from: each vertex's position in its layer.
pub fn initial_ranks(g: &Graph, layers: &Vec<Vec<usize>>) -> (r: Vec<(u128, u128)>)
    requires
        g.wf(),
        layers_wf(g, layers_view(layers)),
    ensures
        ranks_ok(g, r@),
        forall|v: int| 0 <= v < r@.len() ==> key_int(#[trigger] r@[v]) == (positions_of(g, layers_view(layers))[v] as int, 1int),
{
    let pos = get_positions(g, layers);
    proof {
        lemma_positions_agree(g, layers_view(layers), pos@);
    }
    let mut r: Vec<(u128, u128)> = Vec::new();
    let mut v: usize = 0;
    while v < pos.len()
        invariant
            v <= pos@.len(),
            pos@.len() == g.vertices@.len(),
            pos@ == positions_of(g, layers_view(layers)),
            forall|u: int| 0 <= u < pos@.len() ==> pos@[u] < MAX_ITEMS,
            r@.len() == v,
            forall|u: int| 0 <= u < v ==> key_ok(#[trigger] r@[u]) && key_int(r@[u]) == (pos@[u] as int, 1int),
        decreases pos@.len() - v,
    {
        r.push((pos[v] as u128, 1));
        v = v + 1;
    }
    r
}

/// Puts layer `l` in non-decreasing barycenter order, ranks taken from the
/// positions before the call: from the predecessors when `above`, else
/// from the successors; a vertex with no such neighbour keeps its previous
/// rank from `prev`. The new ranks of the layer's vertices are recorded in
/// `prev`. Other layers are unchanged.
pub fn reorder_level(g: &Graph, layers: &mut Vec<Vec<usize>>, l: usize, above: bool, prev: &mut Vec<(u128, u128)>)
    requires
        g.wf(),
        layers_wf(g, layers_view(old(layers))),
        l < old(layers)@.len(),
        ranks_ok(g, old(prev)@),
    ensures
        layers_wf(g, layers_view(final(layers))),
        layers_view(final(layers)) == layers_view(old(layers)).update(
            l as int,
            final(layers)@[l as int]@,
        ),
        perm_of(final(layers)@[l as int]@, old(layers)@[l as int]@),
        forall|q: int|
            0 <= q < final(layers)@[l as int]@.len() - 1 ==> rank_le(
                rank(
                    g.edges@,
                    positions_of(g, layers_view(old(layers))),
                    old(prev)@,
                    #[trigger] final(layers)@[l as int]@[q],
                    above,
                ),
                rank(
                    g.edges@,
                    positions_of(g, layers_view(old(layers))),
                    old(prev)@,
                    final(layers)@[l as int]@[q + 1],
                    above,
                ),
            ),
        ranks_ok(g, final(prev)@),
        forall|v: int|
            0 <= v < g.vertices@.len() ==> key_int(#[trigger] final(prev)@[v]) == if g.vertices@[v].level == l + 1 {
                rank(g.edges@, positions_of(g, layers_view(old(layers))), old(prev)@, v as usize, above)
            } else {
                key_int(old(prev)@[v])
            },
        forall|a: int, b: int|
            0 <= a < b < final(layers)@[l as int]@.len() && rank_le(
                rank(g.edges@, positions_of(g, layers_view(old(layers))), old(prev)@, #[trigger] final(layers)@[l as int]@[b], above),
                rank(g.edges@, positions_of(g, layers_view(old(layers))), old(prev)@, #[trigger] final(layers)@[l as int]@[a], above),
            ) ==> positions_of(g, layers_view(old(layers)))[final(layers)@[l as int]@[a] as int]
                < positions_of(g, layers_view(old(layers)))[final(layers)@[l as int]@[b] as int],
{
    let ghost lv0 = layers_view(layers);
    let ghost prev0 = prev@;
    let pos = get_positions(g, layers);
    proof {
        lemma_positions_agree(g, lv0, pos@);
    }
    let row = copy_row(&layers[l]);
    assert(row@ == lv0[l as int]);
    let mut keys: Vec<(u128, u128)> = Vec::new();
    let mut i: usize = 0;
    while i < row.len()
        invariant
            g.wf(),
            layers_wf(g, lv0),
            0 <= l < lv0.len(),
            row@ == lv0[l as int],
            pos@ == positions_of(g, lv0),
            pos@.len() == g.vertices@.len(),
            forall|u: int| 0 <= u < pos@.len() ==> pos@[u] < MAX_ITEMS,
            prev@ == prev0,
            ranks_ok(g, prev0),
            i <= row@.len(),
            keys@.len() == i,
            forall|k: int|
                0 <= k < i ==> key_ok(#[trigger] keys@[k]) && key_int(keys@[k]) == rank(
                    g.edges@,
                    pos@,
                    prev0,
                    row@[k],
                    above,
                ),
        decreases row@.len() - i,
    {
        assert(row@[i as int] == lv0[l as int][i as int]);
        let k = rank_of(g, &pos, prev, row[i], above);
        keys.push(k);
        i = i + 1;
    }
    let mut i: usize = 0;
    while i < row.len()
        invariant
            g.wf(),
            layers_wf(g, lv0),
            0 <= l < lv0.len(),
            row@ == lv0[l as int],
            i <= row@.len(),
            keys@.len() == row@.len(),
            ranks_ok(g, prev0),
            forall|k: int| 0 <= k < row@.len() ==> key_ok(#[trigger] keys@[k]) && key_int(keys@[k]) == rank(
                g.edges@,
                pos@,
                prev0,
                row@[k],
                above,
            ),
            ranks_ok(g, prev@),
            forall|v: int| 0 <= v < g.vertices@.len() ==> key_int(#[trigger] prev@[v]) == if exists|k: int| 0 <= k < i && row@[k] == v {
                rank(g.edges@, pos@, prev0, v as usize, above)
            } else {
                key_int(prev0[v])
            },
        decreases row@.len() - i,
    {
        let v = row[i];
        proof {
            assert(lv0[l as int][i as int] == v);
            assert(lv0[l as int].no_duplicates());
        }
        let ghost p1 = prev@;
        prev.set(v, keys[i]);
        proof {
            assert forall|u: int| 0 <= u < g.vertices@.len() implies key_int(#[trigger] prev@[u]) == if exists|k: int| 0 <= k < i + 1 && row@[k] == u {
                rank(g.edges@, pos@, prev0, u as usize, above)
            } else {
                key_int(prev0[u])
            } by {
                if u == v {
                    assert(row@[i as int] == u);
                } else {
                    assert(prev@[u] == p1[u]);
                    if exists|k: int| 0 <= k < i + 1 && row@[k] == u {
                        let k = choose|k: int| 0 <= k < i + 1 && row@[k] == u;
                        assert(k < i);
                    }
                }
            }
        }
        i = i + 1;
    }
    proof {
        assert forall|v: int| 0 <= v < g.vertices@.len() implies key_int(#[trigger] prev@[v]) == if g.vertices@[v].level == l + 1 {
            rank(g.edges@, pos@, prev0, v as usize, above)
        } else {
            key_int(prev0[v])
        } by {
            if g.vertices@[v].level == l + 1 {
                assert(lv0[l as int].contains(v as usize));
                let k = choose|k: int| 0 <= k < lv0[l as int].len() && lv0[l as int][k] == v as usize;
                assert(row@[k] == v);
            } else {
                if exists|k: int| 0 <= k < row@.len() && row@[k] == v {
                    let k = choose|k: int| 0 <= k < row@.len() && row@[k] == v;
                    assert(lv0[l as int][k] == v);
                }
            }
        }
    }
    let idx = sort_by_rank(&keys);
    let mut out: Vec<usize> = Vec::new();
    let mut q: usize = 0;
    while q < idx.len()
        invariant
            q <= idx@.len(),
            idx@.len() == row@.len(),
            forall|a: int| 0 <= a < idx@.len() ==> (#[trigger] idx@[a]) < row@.len(),
            out@.len() == q,
            forall|a: int| 0 <= a < q ==> (#[trigger] out@[a]) == row@[idx@[a] as int],
        decreases idx@.len() - q,
    {
        out.push(row[idx[q]]);
        q = q + 1;
    }
    proof {
        let lay = lv0[l as int];
        assert(lay.no_duplicates());
        assert forall|a: int, b: int| 0 <= a < out@.len() && 0 <= b < out@.len() && a != b implies out@[a]
            != out@[b] by {
            assert(idx@[a] != idx@[b]);
        }
        assert forall|x: usize| out@.contains(x) <==> lay.contains(x) by {
            if out@.contains(x) {
                let a = choose|a: int| 0 <= a < out@.len() && out@[a] == x;
                assert(lay[idx@[a] as int] == x);
            }
            if lay.contains(x) {
                let j = choose|j: int| 0 <= j < lay.len() && lay[j] == x;
                assert(idx@.contains(j as usize));
                let a = choose|a: int| 0 <= a < idx@.len() && idx@[a] == j as usize;
                assert(out@[a] == x);
            }
        }
        assert forall|a: int| 0 <= a < out@.len() - 1 implies rank_le(
            rank(g.edges@, pos@, prev0, #[trigger] out@[a], above),
            rank(g.edges@, pos@, prev0, out@[a + 1], above),
        ) by {
            assert(key_int(keys@[idx@[a] as int]) == rank(g.edges@, pos@, prev0, row@[idx@[a] as int], above));
            assert(key_int(keys@[idx@[a + 1] as int]) == rank(
                g.edges@,
                pos@,
                prev0,
                row@[idx@[a + 1] as int],
                above,
            ));
        }
        lemma_replace_layer(g, lv0, l as int, out@);
        assert forall|a: int, b: int|
            0 <= a < b < out@.len() && rank_le(
                rank(g.edges@, pos@, prev0, #[trigger] out@[b], above),
                rank(g.edges@, pos@, prev0, #[trigger] out@[a], above),
            ) implies pos@[out@[a] as int] < pos@[out@[b] as int] by {
            assert(key_int(keys@[idx@[a] as int]) == rank(g.edges@, pos@, prev0, row@[idx@[a] as int], above));
            assert(key_int(keys@[idx@[b] as int]) == rank(g.edges@, pos@, prev0, row@[idx@[b] as int], above));
            assert(idx@[a] < idx@[b]);
            assert(layers@[l as int]@[idx@[a] as int] == row@[idx@[a] as int]);
            assert(layers@[l as int]@[idx@[b] as int] == row@[idx@[b] as int]);
        }
    }
    layers.set(l, out);
    proof {
        assert(layers_view(layers) =~= lv0.update(l as int, layers@[l as int]@));
    }
}

/// The draw at `c`, zero once the draws run out.
pub open spec fn draw_at(draws: Seq<usize>, c: nat) -> nat {
    if c < draws.len() { draws[c as int] as nat } else { 0 }
}

pub open spec fn next_cursor(draws: Seq<usize>, c: nat) -> nat {
    if c < draws.len() { c + 1 } else { c }
}

/// Fisher-Yates steps `i ..` on `row` with draws read from `c` on: step
/// `i` swaps the entries at `i` and `draw % (i + 1)`. Returns the row and
/// the cursor after the last draw read.
pub open spec fn fisher_yates(row: Seq<usize>, draws: Seq<usize>, c: nat, i: nat) -> (Seq<usize>, nat)
    decreases row.len() - i,
{
    if i >= row.len() {
        (row, c)
    } else {
        let j = (draw_at(draws, c) % (i + 1)) as int;
        fisher_yates(row.update(i as int, row[j]).update(j, row[i as int]), draws, next_cursor(draws, c), i + 1)
    }
}

/// Shuffles layer `l` in place (Fisher-Yates from the front): step `i`
/// swaps the entry at `i` with the one at `draw % (i + 1)`, the draws read
/// from `draws` at `*cursor` onwards (zero once they run out).
pub fn shuffle_level(g: &Graph, layers: &mut Vec<Vec<usize>>, l: usize, draws: &Vec<usize>, cursor: &mut usize)
    requires
        layers_wf(g, layers_view(old(layers))),
        l < old(layers)@.len(),
    ensures
        layers_wf(g, layers_view(final(layers))),
        layers_view(final(layers)) == layers_view(old(layers)).update(
            l as int,
            final(layers)@[l as int]@,
        ),
        perm_of(final(layers)@[l as int]@, old(layers)@[l as int]@),
        (final(layers)@[l as int]@, *final(cursor) as nat) == fisher_yates(old(layers)@[l as int]@, draws@, *old(cursor) as nat, 1),
{
    let ghost lv0 = layers_view(layers);
    let mut row = copy_row(&layers[l]);
    proof {
        assert(row@ == lv0[l as int]);
        assert(perm_of(row@, lv0[l as int]));
    }
    let mut i: usize = 1;
    while i < row.len()
        invariant
            1 <= i,
            perm_of(row@, lv0[l as int]),
            lv0[l as int] == old(layers)@[l as int]@,
            fisher_yates(row@, draws@, *cursor as nat, i as nat) == fisher_yates(old(layers)@[l as int]@, draws@, *old(cursor) as nat, 1),
        decreases row@.len() - i,
    {
        let ghost r0 = row@;
        let ghost c0 = *cursor as nat;
        let d = if *cursor < draws.len() {
            draws[*cursor]
        } else {
            0
        };
        if *cursor < draws.len() {
            *cursor = *cursor + 1;
        }
        let j = d % (i + 1);
        let a = row[i];
        let b = row[j];
        proof {
            lemma_swap_perm(row@, lv0[l as int], i as int, j as int);
        }
        row.set(i, b);
        row.set(j, a);
        proof {
            assert(row@ =~= r0.update(i as int, r0[j as int]).update(j as int, r0[i as int]));
            assert((j as nat) == draw_at(draws@, c0) % (i as nat + 1));
        }
        i = i + 1;
    }
    proof {
        lemma_replace_layer(g, lv0, l as int, row@);
        assert(lv0[l as int] == old(layers)@[l as int]@);
    }
    layers.set(l, row);
    proof {
        assert(layers_view(layers) =~= lv0.update(l as int, layers@[l as int]@));
    }
}

/// Total crossings of the graph under the given layers.
pub fn count_crossings(g: &Graph, layers: &Vec<Vec<usize>>) -> (r: u128)
    requires
        g.wf(),
        layers_wf(g, layers_view(layers)),
        layers@.len() <= MAX_ITEMS,
    ensures
        r == layers_crossings(g, layers_view(layers)),
{
    let pos = get_positions(g, layers);
    proof {
        lemma_positions_agree(g, layers_view(layers), pos@);
    }
    cal_crossings(g, &pos, layers.len())
}

/// Index of the last layer with the most vertices.
fn widest_level(layers: &Vec<Vec<usize>>) -> (r: usize)
    requires
        layers@.len() > 0,
    ensures
        r < layers@.len(),
        forall|k: int| 0 <= k < layers@.len() ==> layers@[k]@.len() <= layers@[r as int]@.len(),
        forall|k: int| r < k < layers@.len() ==> layers@[k]@.len() < layers@[r as int]@.len(),
{
    let mut best: usize = 0;
    let mut k: usize = 1;
    while k < layers.len()
        invariant
            1 <= k <= layers@.len(),
            best < k,
            forall|a: int| 0 <= a < k ==> layers@[a]@.len() <= layers@[best as int]@.len(),
            forall|a: int| best < a < k ==> layers@[a]@.len() < layers@[best as int]@.len(),
        decreases layers@.len() - k,
    {
        if layers[k].len() >= layers[best].len() {
            best = k;
        }
        k = k + 1;
    }
    best
}

/// Number of restarts, and of sweep reversals within each restart.
pub const OUTER_MAX_LOOP: usize = 23;
pub const INNER_MAX_LOOP: usize = 23;

/// Searches for layer orders with few crossings. Each restart shuffles
/// the widest layer of the best order so far (with the given draws), then
/// sweeps up and down the layers, reordering each visited layer by
/// barycenter, and keeps every order that improves on the best. Returns
/// the best order found and its crossing count, which is never above that
/// of the given order.
pub fn minimize_crossings_with(g: &Graph, layers: &Vec<Vec<usize>>, draws: &Vec<usize>) -> (r: (
    Vec<Vec<usize>>,
    u128,
))
    requires
        g.wf(),
        layers_wf(g, layers_view(layers)),
        layers@.len() <= MAX_ITEMS,
    ensures
        r.0@.len() == layers@.len(),
        layers_wf(g, layers_view(&r.0)),
        r.1 == layers_crossings(g, layers_view(&r.0)),
        r.1 <= layers_crossings(g, layers_view(layers)),
        r.1 == layers_crossings(g, layers_view(layers)) ==> layers_view(&r.0) == layers_view(layers),
{
    let mut best = copy_layers(layers);
    let mut best_cnt = count_crossings(g, &best);
    let top = layers.len();
    if top == 0 {
        return (best, best_cnt);
    }
    let widest = widest_level(layers);
    let mut cursor: usize = 0;
    let mut outer: usize = 0;
    while outer < OUTER_MAX_LOOP
        invariant
            g.wf(),
            top == layers@.len(),
            0 < top <= MAX_ITEMS,
            widest < top,
            best@.len() == top,
            layers_wf(g, layers_view(&best)),
            best_cnt == layers_crossings(g, layers_view(&best)),
            best_cnt <= layers_crossings(g, layers_view(layers)),
            best_cnt == layers_crossings(g, layers_view(layers)) ==> layers_view(&best) == layers_view(layers),
        decreases OUTER_MAX_LOOP - outer,
    {
        let mut cand = copy_layers(&best);
        shuffle_level(g, &mut cand, widest, draws, &mut cursor);
        let mut inner_best = copy_layers(&cand);
        let mut inner_cnt = count_crossings(g, &cand);
        let mut cur: usize = widest;
        let mut down = false;
        let mut rev: usize = 0;
        let mut prev = initial_ranks(g, &cand);
        while rev < INNER_MAX_LOOP
            invariant
                g.wf(),
                ranks_ok(g, prev@),
                0 < top <= MAX_ITEMS,
                cur < top,
                cand@.len() == top,
                inner_best@.len() == top,
                layers_wf(g, layers_view(&cand)),
                layers_wf(g, layers_view(&inner_best)),
                inner_cnt == layers_crossings(g, layers_view(&inner_best)),
            decreases INNER_MAX_LOOP - rev, if down { top - cur } else { cur + 1 },
        {
            if down {
                if cur + 1 >= top {
                    down = false;
                    rev = rev + 1;
                } else {
                    cur = cur + 1;
                }
            } else {
                if cur == 0 {
                    down = true;
                    rev = rev + 1;
                } else {
                    cur = cur - 1;
                }
            }
            reorder_level(g, &mut cand, cur, down, &mut prev);
            let c = count_crossings(g, &cand);
            if c < inner_cnt {
                inner_cnt = c;
                inner_best = copy_layers(&cand);
            }
        }
        if inner_cnt < best_cnt {
            best_cnt = inner_cnt;
            best = inner_best;
        }
        outer = outer + 1;
    }
    (best, best_cnt)
}

/// Relies on rand's thread_rng().gen_range over 0..=upper: a value from
/// that range.
#[verifier::external_body]
fn random_at_most(upper: usize) -> (r: usize)
    ensures
        r <= upper,
{
    rand::thread_rng().gen_range(0..=upper)
}

/// The draws that the restarts of the search consume, fresh from the
/// thread's random generator: for each restart, one per step of the
/// shuffle, each at most the step's index.
pub fn random_draws(layers: &Vec<Vec<usize>>) -> (r: Vec<usize>)
    ensures
        layers@.len() == 0 ==> r@.len() == 0,
        layers@.len() > 0 ==> exists|w: int| {
            &&& 0 <= w < layers@.len()
            &&& forall|k: int| 0 <= k < layers@.len() ==> layers@[k]@.len() <= layers@[w]@.len()
            &&& forall|k: int| w < k < layers@.len() ==> layers@[k]@.len() < layers@[w]@.len()
            &&& draws_shape(r@, layers@[w]@.len() as int)
        },
{
    let mut r: Vec<usize> = Vec::new();
    if layers.len() == 0 {
        return r;
    }
    let w = widest_level(layers);
    let len = layers[w].len();
    let steps: usize = if len > 0 { len - 1 } else { 0 };
    let mut t: usize = 0;
    while t < OUTER_MAX_LOOP
        invariant
            steps == (if len > 0 { len - 1 } else { 0 }),
            t <= OUTER_MAX_LOOP,
            r@.len() == t * steps,
            forall|k: int| 0 <= k < r@.len() ==> #[trigger] r@[k] <= k % (steps as int) + 1,
        decreases OUTER_MAX_LOOP - t,
    {
        let mut i: usize = 1;
        while i < len
            invariant
                steps == (if len > 0 { len - 1 } else { 0 }),
                t < OUTER_MAX_LOOP,
                1 <= i <= len || (len == 0 && i == 1),
                r@.len() == t * steps + (i - 1),
                forall|k: int| 0 <= k < r@.len() ==> #[trigger] r@[k] <= k % (steps as int) + 1,
            decreases len - i,
        {
            let ghost p = r@.len() as int;
            proof {
                assert(p == t * steps + (i - 1));
                vstd::arithmetic::div_mod::lemma_mod_multiples_vanish(t as int, (i - 1) as int, steps as int);
                vstd::arithmetic::div_mod::lemma_small_mod((i - 1) as nat, steps as nat);
                assert((steps as int) * (t as int) == t * steps) by (nonlinear_arith);
                assert(p % (steps as int) == i - 1);
            }
            r.push(random_at_most(i));
            i = i + 1;
        }
        proof {
            assert((t + 1) * steps == t * steps + steps) by (nonlinear_arith);
        }
        t = t + 1;
    }
    assert(draws_shape(r@, len as int));
    r
}

/// `OUTER_MAX_LOOP` runs of one draw per shuffle step `1 .. w - 1`, each
/// draw at most its step.
pub open spec fn draws_shape(d: Seq<usize>, w: int) -> bool {
    let steps = if w > 0 { w - 1 } else { 0 };
    &&& d.len() == OUTER_MAX_LOOP * steps
    &&& forall|k: int| 0 <= k < d.len() ==> #[trigger] d[k] <= k % steps + 1
}

/// `minimize_crossings_with` on fresh random draws.
pub fn minimize_crossings(g: &Graph, layers: &Vec<Vec<usize>>) -> (r: (Vec<Vec<usize>>, u128))
    requires
        g.wf(),
        layers_wf(g, layers_view(layers)),
        layers@.len() <= MAX_ITEMS,
    ensures
        r.0@.len() == layers@.len(),
        layers_wf(g, layers_view(&r.0)),
        r.1 == layers_crossings(g, layers_view(&r.0)),
        r.1 <= layers_crossings(g, layers_view(layers)),
        r.1 == layers_crossings(g, layers_view(layers)) ==> layers_view(&r.0) == layers_view(layers),
{
    let draws = random_draws(layers);
    minimize_crossings_with(g, layers, &draws)
}

} // verus!

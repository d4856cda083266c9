//! Splitting level-skipping edges into chains of placeholder vertices.

use vstd::prelude::*;
use crate::graph::{Edge, Graph, MAX_ITEMS, Vertex, edges_in_range};
use crate::level::is_layering;

verus! {

/// Number of placeholder vertices that edge `e` needs: one per level
/// strictly between its ends.
pub open spec fn extra(lvs: Seq<int>, e: Edge) -> nat {
    let d = lvs[e.target as int] - lvs[e.source as int];
    if d > 1 {
        (d - 1) as nat
    } else {
        0
    }
}

pub open spec fn extra_total(lvs: Seq<int>, es: Seq<Edge>) -> nat
    decreases es.len(),
{
    if es.len() == 0 {
        0
    } else {
        extra_total(lvs, es.drop_last()) + extra(lvs, es.last())
    }
}

/// The unit edges that replace `e` when its `k` placeholders are numbered
/// from `first`: `e` itself when `k` is zero.
pub open spec fn chain(e: Edge, first: int, k: nat) -> Seq<Edge> {
    if k == 0 {
        seq![e]
    } else {
        Seq::new(
            k + 1,
            |j: int|
                Edge {
                    source: if j == 0 {
                        e.source
                    } else {
                        (first + j - 1) as usize
                    },
                    target: if j == k {
                        e.target
                    } else {
                        (first + j) as usize
                    },
                    routed: false,
                },
        )
    }
}

/// The edge list after every edge has been split into unit edges, with
/// placeholders numbered from `n` in edge order.
pub open spec fn dummied(lvs: Seq<int>, es: Seq<Edge>, n: int) -> Seq<Edge>
    decreases es.len(),
{
    if es.len() == 0 {
        seq![]
    } else {
        dummied(lvs, es.drop_last(), n) + chain(
            es.last(),
            n + extra_total(lvs, es.drop_last()),
            extra(lvs, es.last()),
        )
    }
}

/// Level `l` is at least one and below some vertex of `vs`.
pub open spec fn below_some(vs: Seq<Vertex>, l: usize) -> bool {
    1 <= l && exists|u: int| 0 <= u < vs.len() && l < vs[u].level
}

pub open spec fn is_placeholder(v: Vertex) -> bool {
    v.is_dummy && v.width == 1 && v.height == 1 && v.x == 0 && v.y == 0
}

/// Every edge joins consecutive levels.
pub open spec fn unit_edges(g: &Graph) -> bool {
    forall|i: int|
        0 <= i < g.edges@.len() ==> g.vertices@[(#[trigger] g.edges@[i]).target as int].level
            == g.vertices@[g.edges@[i].source as int].level + 1
}

/// Number of placeholders the graph needs, or `None` when the graph would
/// outgrow 32-bit indices.
pub fn dummy_count(g: &Graph) -> (r: Option<usize>)
    requires
        g.wf(),
        is_layering(g.levels(), g.edges@),
    ensures
        r matches Some(k) ==> k == extra_total(g.levels(), g.edges@) && g.vertices@.len() + k
            <= MAX_ITEMS && g.edges@.len() + k <= MAX_ITEMS,
        r is None ==> g.vertices@.len() + extra_total(g.levels(), g.edges@) > MAX_ITEMS
            || g.edges@.len() + extra_total(g.levels(), g.edges@) > MAX_ITEMS,
{
    let n = g.vertices.len();
    let m = g.edges.len();
    let mut total: usize = 0;
    let mut i: usize = 0;
    while i < m
        invariant
            g.wf(),
            n == g.vertices@.len(),
            m == g.edges@.len(),
            is_layering(g.levels(), g.edges@),
            i <= m,
            total == extra_total(g.levels(), g.edges@.take(i as int)),
            n + total <= MAX_ITEMS,
            m + total <= MAX_ITEMS,
        decreases m - i,
    {
        let e = g.edges[i];
        let ls = g.vertices[e.source].level;
        let lt = g.vertices[e.target].level;
        proof {
            assert(g.edges@.take(i + 1).drop_last() =~= g.edges@.take(i as int));
            assert(g.levels()[e.source as int] < g.levels()[e.target as int]);
        }
        let k = if lt - ls > 1 { lt - ls - 1 } else { 0 };
        if k > MAX_ITEMS - n - total || k > MAX_ITEMS - m - total {
            proof {
                lemma_extra_total_prefix(g.levels(), g.edges@, i as int + 1);
            }
            return None;
        }
        total = total + k;
        i = i + 1;
    }
    assert(g.edges@.take(m as int) =~= g.edges@);
    Some(total)
}

proof fn lemma_extra_total_prefix(lvs: Seq<int>, es: Seq<Edge>, i: int)
    requires
        0 <= i <= es.len(),
    ensures
        extra_total(lvs, es.take(i)) <= extra_total(lvs, es),
    decreases es.len() - i,
{
    if i < es.len() {
        lemma_extra_total_prefix(lvs, es, i + 1);
        assert(es.take(i + 1).drop_last() =~= es.take(i));
    } else {
        assert(es.take(i) =~= es);
    }
}

/// Splits every edge that skips levels into a chain of unit edges through
/// fresh placeholder vertices, one per intermediate level, numbered from
/// the current vertex count in edge order. Afterwards every edge joins
/// consecutive levels.
pub fn add_dummy(g: &mut Graph)
    requires
        old(g).wf(),
        is_layering(old(g).levels(), old(g).edges@),
        old(g).vertices@.len() + extra_total(old(g).levels(), old(g).edges@) <= MAX_ITEMS,
        old(g).edges@.len() + extra_total(old(g).levels(), old(g).edges@) <= MAX_ITEMS,
    ensures
        final(g).wf(),
        unit_edges(final(g)),
        final(g).edges@ == dummied(old(g).levels(), old(g).edges@, old(g).vertices@.len() as int),
        final(g).vertices@.len() == old(g).vertices@.len() + extra_total(
            old(g).levels(),
            old(g).edges@,
        ),
        forall|v: int| 0 <= v < old(g).vertices@.len() ==> final(g).vertices@[v] == old(g).vertices@[v],
        forall|v: int| 0 <= v < old(g).vertices@.len() ==> final(g).labels@[v] == old(g).labels@[v],
        forall|v: int|
            old(g).vertices@.len() <= v < final(g).vertices@.len() ==> is_placeholder(
                #[trigger] final(g).vertices@[v],
            ) && final(g).labels@[v]@.len() == 0,
        forall|v: int|
            old(g).vertices@.len() <= v < final(g).vertices@.len() ==> below_some(
                old(g).vertices@,
                (#[trigger] final(g).vertices@[v]).level,
            ),
{
    let n = g.vertices.len();
    let m = g.edges.len();
    let ghost lvs = g.levels();
    let ghost es0 = g.edges@;
    let ghost vs0 = g.vertices@;
    let ghost ls0 = g.labels@;
    let mut out: Vec<Edge> = Vec::new();
    let mut i: usize = 0;
    proof {
        lemma_extra_total_prefix(lvs, es0, 0);
    }
    while i < m
        invariant
            n == vs0.len(),
            m == es0.len(),
            g.edges@ == es0,
            edges_in_range(n as nat, es0),
            is_layering(lvs, es0),
            lvs == Seq::new(n as nat, |v: int| vs0[v].level as int),
            n + extra_total(lvs, es0) <= MAX_ITEMS,
            m + extra_total(lvs, es0) <= MAX_ITEMS,
            i <= m,
            g.labels@.len() == g.vertices@.len(),
            g.vertices@.len() == n + extra_total(lvs, es0.take(i as int)),
            extra_total(lvs, es0.take(i as int)) <= extra_total(lvs, es0),
            forall|v: int| 0 <= v < n ==> g.vertices@[v] == vs0[v] && g.labels@[v] == ls0[v],
            forall|v: int|
                n <= v < g.vertices@.len() ==> is_placeholder(#[trigger] g.vertices@[v])
                    && g.labels@[v]@.len() == 0,
            out@ == dummied(lvs, es0.take(i as int), n as int),
            out@.len() <= i + extra_total(lvs, es0.take(i as int)),
            forall|v: int|
                n <= v < g.vertices@.len() ==> below_some(vs0, (#[trigger] g.vertices@[v]).level),
            forall|j: int|
                0 <= j < out@.len() ==> (#[trigger] out@[j]).source < g.vertices@.len()
                    && out@[j].target < g.vertices@.len() && g.vertices@[out@[j].target as int].level
                    == g.vertices@[out@[j].source as int].level + 1,
        decreases m - i,
    {
        let e = g.edges[i];
        let ls = g.vertices[e.source].level;
        let lt = g.vertices[e.target].level;
        proof {
            assert(es0.take(i + 1).drop_last() =~= es0.take(i as int));
            assert(es0.take(i + 1).last() == e);
            assert(lvs[e.source as int] < lvs[e.target as int]);
            lemma_extra_total_prefix(lvs, es0, i + 1);
        }
        let ghost first = g.vertices@.len() as int;
        let ghost k = extra(lvs, e);
        assert(lvs[e.source as int] >= 1);
        let ghost before = out@;
        if lt - ls <= 1 {
            out.push(e);
            proof {
                assert(chain(e, first, k) =~= seq![e]);
                assert(out@ =~= before + chain(e, first, k));
            }
        } else {
            let mut last = e.source;
            let mut lv = ls + 1;
            while lv < lt
                invariant
                    n == vs0.len(),
                    g.edges@ == es0,
                    edges_in_range(n as nat, es0),
                    0 <= i < m,
                    e == es0[i as int],
                    ls == vs0[e.source as int].level,
                    lt == vs0[e.target as int].level,
                    ls + 1 < lt,
                    k == lt - ls - 1,
                    ls + 1 <= lv <= lt,
                    first == n + extra_total(lvs, es0.take(i as int)),
                    first + k <= MAX_ITEMS,
                    g.labels@.len() == g.vertices@.len(),
                    g.vertices@.len() == first + (lv - ls - 1),
                    forall|v: int| 0 <= v < n ==> g.vertices@[v] == vs0[v] && g.labels@[v] == ls0[v],
                    forall|v: int|
                        n <= v < g.vertices@.len() ==> is_placeholder(#[trigger] g.vertices@[v])
                            && g.labels@[v]@.len() == 0,
                    forall|v: int|
                        first <= v < g.vertices@.len() ==> (#[trigger] g.vertices@[v]).level == ls + 1 + (v
                            - first),
                    lv <= lt,
                    ls >= 1,
                    e.target < n,
                    forall|v: int|
                        n <= v < first ==> below_some(vs0, (#[trigger] g.vertices@[v]).level),
                    forall|v: int|
                        first <= v < g.vertices@.len() ==> 1 <= (#[trigger] g.vertices@[v]).level < vs0[e.target as int].level,
                    last < g.vertices@.len(),
                    g.vertices@[last as int].level == lv - 1,
                    lv == ls + 1 ==> last == e.source,
                    lv > ls + 1 ==> last == g.vertices@.len() - 1,
                    out@ == before + chain(e, first, k).take(lv - ls - 1),
                    forall|j: int|
                        0 <= j < out@.len() ==> (#[trigger] out@[j]).source < g.vertices@.len()
                            && out@[j].target < g.vertices@.len() && g.vertices@[out@[j].target as int].level
                            == g.vertices@[out@[j].source as int].level + 1,
                decreases lt - lv,
            {
                let id = g.vertices.len();
                g.vertices.push(Vertex { level: lv, is_dummy: true, width: 1, height: 1, x: 0, y: 0 });
                g.labels.push(String::new());
                let ghost o = out@;
                out.push(Edge { source: last, target: id, routed: false });
                proof {
                    assert(chain(e, first, k).take(lv - ls) =~= chain(e, first, k).take(lv - ls - 1).push(
                        Edge { source: last, target: id, routed: false },
                    ));
                }
                last = id;
                lv = lv + 1;
            }
            out.push(Edge { source: last, target: e.target, routed: false });
            proof {
                assert forall|v: int|
                    n <= v < g.vertices@.len() implies below_some(vs0, (#[trigger] g.vertices@[v]).level) by {
                    if v >= first {
                        assert(1 <= g.vertices@[v].level < vs0[e.target as int].level);
                    }
                }
                assert(chain(e, first, k) =~= chain(e, first, k).take(k as int).push(
                    Edge { source: last, target: e.target, routed: false },
                ));
            }
        }
        assert(forall|v: int|
            n <= v < g.vertices@.len() ==> is_placeholder(#[trigger] g.vertices@[v])
                && g.labels@[v]@.len() == 0);
        proof {
            assert(dummied(lvs, es0.take(i + 1), n as int) == dummied(lvs, es0.take(i as int), n as int)
                + chain(e, first, k));
        }
        i = i + 1;
    }
    proof {
        assert(es0.take(m as int) =~= es0);
    }
    g.edges = out;
}

} // verus!

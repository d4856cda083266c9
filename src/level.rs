//! Longest-path leveling, and rejection of graphs with a directed cycle.

use vstd::prelude::*;
use crate::graph::{Edge, Graph, MAX_ITEMS, edges_in_range, same_but_level};
use petgraph::algo::toposort;
use petgraph::graph::DiGraph;

verus! {

/// The layout was asked of a graph that has a directed cycle.
#[derive(Debug, PartialEq, Eq, Structural)]
pub struct CyclicGraphError;

/// There is an edge from `a` to `b`.
pub open spec fn is_edge(es: Seq<Edge>, a: int, b: int) -> bool {
    exists|i: int| 0 <= i < es.len() && es[i].source == a && es[i].target == b
}

/// `p` is a closed walk: it returns to its start along edges.
pub open spec fn is_cycle(es: Seq<Edge>, p: Seq<int>) -> bool {
    &&& p.len() >= 2
    &&& p[0] == p.last()
    &&& forall|k: int| 0 <= k < p.len() - 1 ==> is_edge(es, #[trigger] p[k], p[k + 1])
}

pub open spec fn has_cycle(es: Seq<Edge>) -> bool {
    exists|p: Seq<int>| is_cycle(es, p)
}

/// Levels of at least one that grow strictly along every edge.
pub open spec fn is_layering(lv: Seq<int>, es: Seq<Edge>) -> bool {
    &&& forall|v: int| 0 <= v < lv.len() ==> lv[v] >= 1
    &&& forall|i: int|
        0 <= i < es.len() ==> lv[(#[trigger] es[i]).source as int] < lv[es[i].target as int]
}

/// Each vertex sits one level below its deepest predecessor, or at level
/// one when it has none: the level is the length of the longest path
/// reaching it from a source.
pub open spec fn is_longest_path_layering(lv: Seq<int>, es: Seq<Edge>) -> bool {
    &&& is_layering(lv, es)
    &&& forall|v: int|
        0 <= v < lv.len() ==> lv[v] == 1 || exists|i: int|
            0 <= i < es.len() && (#[trigger] es[i]).target == v && lv[v] == lv[es[i].source as int]
                + 1
}

pub open spec fn admits_layering(n: nat, es: Seq<Edge>) -> bool {
    exists|lv: Seq<int>| lv.len() == n && is_layering(lv, es)
}

/// Relies on petgraph's toposort (iterative), run on the graph that
/// Graph::from_edges builds from the edge list: it fails exactly when the
/// edges form a directed cycle (a self-loop counts). Vertices without edges
/// do not matter to cycles, so the graph needs no others.
#[verifier::external_body]
fn edges_have_cycle(edges: &Vec<Edge>) -> (r: bool)
    requires
        forall|i: int|
            0 <= i < edges@.len() ==> (#[trigger] edges@[i]).source < MAX_ITEMS && edges@[i].target
                < MAX_ITEMS,
    ensures
        r == has_cycle(edges@),
{
    let g = DiGraph::<(), ()>::from_edges(edges.iter().map(|e| (e.source as u32, e.target as u32)));
    toposort(&g, None).is_err()
}

pub open spec fn count_true(s: Seq<bool>) -> nat
    decreases s.len(),
{
    if s.len() == 0 {
        0
    } else {
        count_true(s.drop_last()) + if s.last() {
            1nat
        } else {
            0nat
        }
    }
}

proof fn lemma_count_true_bound(s: Seq<bool>)
    ensures
        count_true(s) <= s.len(),
    decreases s.len(),
{
    if s.len() > 0 {
        lemma_count_true_bound(s.drop_last());
    }
}

proof fn lemma_count_true_set(s: Seq<bool>, i: int)
    requires
        0 <= i < s.len(),
        !s[i],
    ensures
        count_true(s.update(i, true)) == count_true(s) + 1,
    decreases s.len(),
{
    let t = s.update(i, true);
    if i == s.len() - 1 {
        assert(t.drop_last() =~= s.drop_last());
    } else {
        assert(t.drop_last() =~= s.drop_last().update(i, true));
        lemma_count_true_set(s.drop_last(), i);
    }
}

proof fn lemma_cycle_levels_grow(es: Seq<Edge>, p: Seq<int>, lv: Seq<int>, j: int)
    requires
        edges_in_range(lv.len(), es),
        is_cycle(es, p),
        is_layering(lv, es),
        1 <= j < p.len(),
    ensures
        0 <= p[0] < lv.len(),
        0 <= p[j] < lv.len(),
        lv[p[0]] < lv[p[j]],
    decreases j,
{
    assert(is_edge(es, p[j - 1], p[j]));
    let i = choose|i: int| 0 <= i < es.len() && es[i].source == p[j - 1] && es[i].target == p[j];
    assert(lv[es[i].source as int] < lv[es[i].target as int]);
    if j > 1 {
        lemma_cycle_levels_grow(es, p, lv, j - 1);
    } else {
        assert(is_edge(es, p[0], p[1]));
    }
}

/// A graph with a directed cycle has no layering.
pub proof fn lemma_cycle_has_no_layering(n: nat, es: Seq<Edge>)
    requires
        edges_in_range(n, es),
        has_cycle(es),
    ensures
        !admits_layering(n, es),
{
    let p = choose|p: Seq<int>| is_cycle(es, p);
    if admits_layering(n, es) {
        let lv = choose|lv: Seq<int>| lv.len() == n && is_layering(lv, es);
        lemma_cycle_levels_grow(es, p, lv, p.len() - 1);
    }
}

proof fn lemma_stuck_above(es: Seq<Edge>, done: Seq<bool>, lv: Seq<int>, k: nat)
    requires
        edges_in_range(lv.len(), es),
        done.len() == lv.len(),
        is_layering(lv, es),
        forall|v: int|
            0 <= v < done.len() && !done[v] ==> exists|i: int|
                0 <= i < es.len() && (#[trigger] es[i]).target == v && !done[es[i].source as int],
    ensures
        forall|v: int| 0 <= v < done.len() && !done[v] ==> lv[v] > k,
    decreases k,
{
    if k > 0 {
        lemma_stuck_above(es, done, lv, (k - 1) as nat);
        assert forall|v: int| 0 <= v < done.len() && !done[v] implies lv[v] > k by {
            let i = choose|i: int|
                0 <= i < es.len() && (#[trigger] es[i]).target == v && !done[es[i].source as int];
            assert(lv[es[i].source as int] < lv[es[i].target as int]);
        }
    }
}

/// When every unfinished vertex has an unfinished predecessor, some
/// unfinished vertex lies on a cycle and no layering exists.
proof fn lemma_stuck_has_no_layering(es: Seq<Edge>, done: Seq<bool>, v0: int)
    requires
        edges_in_range(done.len(), es),
        0 <= v0 < done.len(),
        !done[v0],
        forall|v: int|
            0 <= v < done.len() && !done[v] ==> exists|i: int|
                0 <= i < es.len() && (#[trigger] es[i]).target == v && !done[es[i].source as int],
    ensures
        !admits_layering(done.len(), es),
{
    if admits_layering(done.len(), es) {
        let lv = choose|lv: Seq<int>| lv.len() == done.len() && is_layering(lv, es);
        lemma_stuck_above(es, done, lv, lv[v0] as nat);
    }
}

/// Whether every predecessor of `v` is finished, and if so one more than
/// the deepest predecessor's level (one when there is none).
fn ready_level(edges: &Vec<Edge>, done: &Vec<bool>, lv: &Vec<usize>, v: usize) -> (r: (
    bool,
    usize,
))
    requires
        edges_in_range(done@.len(), edges@),
        lv@.len() == done@.len(),
        v < done@.len(),
        forall|u: int| 0 <= u < done@.len() && done@[u] ==> lv@[u] <= MAX_ITEMS,
    ensures
        r.0 == forall|i: int|
            0 <= i < edges@.len() && (#[trigger] edges@[i]).target == v ==> done@[edges@[i].source as int],
        r.0 ==> {
            &&& r.1 >= 1
            &&& forall|i: int|
                0 <= i < edges@.len() && (#[trigger] edges@[i]).target == v ==> lv@[edges@[i].source as int]
                    < r.1
            &&& r.1 == 1 || exists|i: int|
                0 <= i < edges@.len() && (#[trigger] edges@[i]).target == v && r.1 == lv@[edges@[i].source as int]
                    + 1
        },
{
    let mut ready = true;
    let mut best: usize = 1;
    let mut i: usize = 0;
    while i < edges.len()
        invariant
            edges_in_range(done@.len(), edges@),
            lv@.len() == done@.len(),
            v < done@.len(),
            forall|u: int| 0 <= u < done@.len() && done@[u] ==> lv@[u] <= MAX_ITEMS,
            i <= edges@.len(),
            ready == forall|j: int|
                0 <= j < i && (#[trigger] edges@[j]).target == v ==> done@[edges@[j].source as int],
            ready ==> {
                &&& best >= 1
                &&& forall|j: int|
                    0 <= j < i && (#[trigger] edges@[j]).target == v ==> lv@[edges@[j].source as int]
                        < best
                &&& best == 1 || exists|j: int|
                    0 <= j < i && (#[trigger] edges@[j]).target == v && best == lv@[edges@[j].source as int]
                        + 1
            },
        decreases edges@.len() - i,
    {
        let e = edges[i];
        assert(edges@[i as int] == e);
        if e.target == v {
            if !done[e.source] {
                ready = false;
            } else if lv[e.source] + 1 > best {
                best = lv[e.source] + 1;
            }
        }
        i = i + 1;
    }
    (ready, best)
}

/// Every finished vertex has finished predecessors, sits below each of
/// them, and one below the deepest (or at level one when it has none).
#[verifier::opaque]
spec fn finished_ok(es: Seq<Edge>, done: Seq<bool>, lv: Seq<usize>) -> bool {
    &&& forall|u: int| 0 <= u < done.len() && done[u] ==> 1 <= lv[u] <= count_true(done)
    &&& forall|u: int|
        0 <= u < done.len() && done[u] ==> forall|i: int|
            0 <= i < es.len() && (#[trigger] es[i]).target == u ==> done[es[i].source as int]
                && lv[es[i].source as int] < lv[u]
    &&& forall|u: int|
        0 <= u < done.len() && done[u] ==> lv[u] == 1 || exists|i: int|
            0 <= i < es.len() && (#[trigger] es[i]).target == u && lv[u] == lv[es[i].source as int] + 1
}

proof fn lemma_finish_one(es: Seq<Edge>, done: Seq<bool>, lv: Seq<usize>, v: int, l: usize)
    requires
        edges_in_range(done.len(), es),
        lv.len() == done.len(),
        0 <= v < done.len(),
        !done[v],
        finished_ok(es, done, lv),
        l >= 1,
        forall|i: int| 0 <= i < es.len() && (#[trigger] es[i]).target == v ==> done[es[i].source as int],
        forall|i: int|
            0 <= i < es.len() && (#[trigger] es[i]).target == v ==> lv[es[i].source as int] < l,
        l == 1 || exists|i: int|
            0 <= i < es.len() && (#[trigger] es[i]).target == v && l == lv[es[i].source as int] + 1,
    ensures
        finished_ok(es, done.update(v, true), lv.update(v, l)),
        count_true(done.update(v, true)) == count_true(done) + 1,
{
    reveal(finished_ok);
    lemma_count_true_set(done, v);
    let nd = done.update(v, true);
    let nl = lv.update(v, l);
    assert forall|u: int|
        0 <= u < nd.len() && nd[u] implies nl[u] == 1 || exists|i: int|
            0 <= i < es.len() && (#[trigger] es[i]).target == u && nl[u] == nl[es[i].source as int] + 1 by {
        if u != v {
            if lv[u] != 1 {
                let i = choose|i: int|
                    0 <= i < es.len() && (#[trigger] es[i]).target == u && lv[u] == lv[es[i].source as int] + 1;
                assert(done[es[i].source as int]);
            }
        } else if l != 1 {
            let i = choose|i: int|
                0 <= i < es.len() && (#[trigger] es[i]).target == v && l == lv[es[i].source as int] + 1;
            assert(done[es[i].source as int]);
        }
    }
    assert forall|u: int|
        0 <= u < nd.len() && nd[u] implies forall|i: int|
            0 <= i < es.len() && (#[trigger] es[i]).target == u ==> nd[es[i].source as int]
                && nl[es[i].source as int] < nl[u] by {
        assert forall|i: int|
            0 <= i < es.len() && (#[trigger] es[i]).target == u implies nd[es[i].source as int]
                && nl[es[i].source as int] < nl[u] by {
            assert(done[es[i].source as int]);
        }
    }
}

proof fn lemma_finished_bound(es: Seq<Edge>, done: Seq<bool>, lv: Seq<usize>)
    requires
        finished_ok(es, done, lv),
    ensures
        forall|u: int| 0 <= u < done.len() && done[u] ==> 1 <= lv[u] <= count_true(done),
{
    reveal(finished_ok);
}

pub open spec fn as_ints(lv: Seq<usize>) -> Seq<int> {
    Seq::new(lv.len(), |i: int| lv[i] as int)
}

proof fn lemma_all_finished(es: Seq<Edge>, done: Seq<bool>, lv: Seq<usize>)
    requires
        edges_in_range(done.len(), es),
        lv.len() == done.len(),
        finished_ok(es, done, lv),
        forall|u: int| 0 <= u < done.len() ==> done[u],
    ensures
        is_longest_path_layering(as_ints(lv), es),
        forall|u: int| 0 <= u < lv.len() ==> lv[u] <= lv.len(),
{
    reveal(finished_ok);
    lemma_count_true_bound(done);
    let lvs = as_ints(lv);
    assert forall|i: int| 0 <= i < es.len() implies lvs[(#[trigger] es[i]).source as int]
        < lvs[es[i].target as int] by {
        assert(done[es[i].target as int]);
    }
    assert forall|u: int| 0 <= u < lvs.len() implies lvs[u] == 1 || exists|i: int|
        0 <= i < es.len() && (#[trigger] es[i]).target == u && lvs[u] == lvs[es[i].source as int]
            + 1 by {
        assert(done[u]);
        if lv[u] != 1 {
            let i = choose|i: int|
                0 <= i < es.len() && (#[trigger] es[i]).target == u && lv[u] == lv[es[i].source as int]
                    + 1;
            assert(lvs[u] == lvs[es[i].source as int] + 1);
        }
    }
}

/// Marks vertices finished round by round, each once all its predecessors
/// are; stops when a round finishes none.
fn finish_rounds(es: &Vec<Edge>, n: usize) -> (r: (Vec<bool>, Vec<usize>))
    requires
        edges_in_range(n as nat, es@),
    ensures
        r.0@.len() == n,
        r.1@.len() == n,
        finished_ok(es@, r.0@, r.1@),
        forall|u: int|
            0 <= u < n && !r.0@[u] ==> exists|i: int|
                0 <= i < es@.len() && (#[trigger] es@[i]).target == u && !r.0@[es@[i].source as int],
{
    let mut done: Vec<bool> = Vec::new();
    let mut lv: Vec<usize> = Vec::new();
    let mut k: usize = 0;
    while k < n
        invariant
            k <= n,
            done@.len() == k,
            lv@.len() == k,
            forall|u: int| 0 <= u < k ==> !done@[u] && lv@[u] == 0,
        decreases n - k,
    {
        done.push(false);
        lv.push(0);
        k = k + 1;
    }
    proof {
        lemma_count_true_zero(done@);
        reveal(finished_ok);
    }
    loop
        invariant
            edges_in_range(n as nat, es@),
            done@.len() == n,
            lv@.len() == n,
            finished_ok(es@, done@, lv@),
        ensures
            done@.len() == n,
            lv@.len() == n,
            finished_ok(es@, done@, lv@),
            forall|u: int|
                0 <= u < n && !done@[u] ==> exists|i: int|
                    0 <= i < es@.len() && (#[trigger] es@[i]).target == u && !done@[es@[i].source as int],
        decreases n - count_true(done@),
    {
        let ghost start = count_true(done@);
        let mut progress = false;
        let mut v: usize = 0;
        while v < n
            invariant
                edges_in_range(n as nat, es@),
                v <= n,
                done@.len() == n,
                lv@.len() == n,
                count_true(done@) >= start,
                progress ==> count_true(done@) > start,
                finished_ok(es@, done@, lv@),
                !progress ==> forall|u: int|
                    0 <= u < v && !done@[u] ==> exists|i: int|
                        0 <= i < es@.len() && (#[trigger] es@[i]).target == u && !done@[es@[i].source as int],
            decreases n - v,
        {
            if !done[v] {
                proof {
                    lemma_count_true_bound(done@);
                    lemma_finished_bound(es@, done@, lv@);
                }
                let (ready, l) = ready_level(es, &done, &lv, v);
                if ready {
                    proof {
                        lemma_finish_one(es@, done@, lv@, v as int, l);
                    }
                    lv.set(v, l);
                    done.set(v, true);
                    progress = true;
                }
            }
            v = v + 1;
        }
        proof {
            lemma_count_true_bound(done@);
        }
        if !progress {
            break;
        }
    }
    (done, lv)
}

/// Gives each vertex the length of the longest path that reaches it from a
/// source (sources get one), and returns the largest level. Fails, leaving
/// the graph as it was, exactly when no such layering exists, that is when
/// the graph has a directed cycle.
pub fn assign_level(g: &mut Graph) -> (r: Result<usize, CyclicGraphError>)
    requires
        old(g).wf(),
    ensures
        final(g).wf(),
        final(g).edges@ == old(g).edges@,
        final(g).labels@ == old(g).labels@,
        final(g).vertices@.len() == old(g).vertices@.len(),
        forall|v: int|
            0 <= v < final(g).vertices@.len() ==> same_but_level(
                #[trigger] final(g).vertices@[v],
                old(g).vertices@[v],
            ),
        r is Err <==> !admits_layering(old(g).vertices@.len() as nat, old(g).edges@),
        r is Err ==> final(g).vertices@ == old(g).vertices@,
        r is Ok ==> is_longest_path_layering(final(g).levels(), final(g).edges@),
        r matches Ok(m) ==> {
            &&& m <= final(g).vertices@.len()
            &&& forall|v: int| 0 <= v < final(g).vertices@.len() ==> final(g).vertices@[v].level <= m
            &&& final(g).vertices@.len() == 0 ==> m == 0
            &&& final(g).vertices@.len() > 0 ==> exists|v: int|
                0 <= v < final(g).vertices@.len() && final(g).vertices@[v].level == m
        },
{
    if edges_have_cycle(&g.edges) {
        proof {
            lemma_cycle_has_no_layering(g.vertices@.len() as nat, g.edges@);
        }
        return Err(CyclicGraphError);
    }
    let n = g.vertices.len();
    let (done, lv) = finish_rounds(&g.edges, n);
    let mut missing: usize = 0;
    let mut all = true;
    let mut w: usize = 0;
    while w < n
        invariant
            w <= n,
            done@.len() == n,
            all == forall|u: int| 0 <= u < w ==> done@[u],
            !all ==> missing < n && !done@[missing as int],
        decreases n - w,
    {
        if !done[w] {
            all = false;
            missing = w;
        }
        w = w + 1;
    }
    if !all {
        proof {
            lemma_stuck_has_no_layering(g.edges@, done@, missing as int);
        }
        return Err(CyclicGraphError);
    }
    proof {
        lemma_all_finished(g.edges@, done@, lv@);
    }
    let mut max_level: usize = 0;
    let mut v: usize = 0;
    let ghost vs0 = g.vertices@;
    let ghost labels0 = g.labels@;
    let ghost es0 = g.edges@;
    while v < n
        invariant
            g.labels@ == labels0,
            g.edges@ == es0,
            n == g.vertices@.len() == vs0.len(),
            g.wf(),
            v <= n,
            done@.len() == n,
            lv@.len() == n,
            forall|u: int| 0 <= u < n ==> done@[u],
            forall|u: int| 0 <= u < v ==> g.vertices@[u].level == lv@[u],
            forall|u: int| v <= u < n ==> g.vertices@[u] == vs0[u],
            forall|u: int| 0 <= u < n ==> same_but_level(#[trigger] g.vertices@[u], vs0[u]),
            forall|u: int| 0 <= u < v ==> lv@[u] <= max_level,
            v == 0 ==> max_level == 0,
            v > 0 ==> exists|u: int| 0 <= u < v && lv@[u] == max_level,
        decreases n - v,
    {
        let mut x = g.vertices[v];
        x.level = lv[v];
        g.vertices.set(v, x);
        if lv[v] > max_level {
            max_level = lv[v];
        }
        v = v + 1;
    }
    proof {
        assert(g.levels() =~= as_ints(lv@));
        if n > 0 {
            let u = choose|u: int| 0 <= u < n && lv@[u] == max_level;
            assert(g.vertices@[u].level == max_level);
        }
        assert forall|u: int| 0 <= u < n implies g.vertices@[u].level <= max_level by {
            assert(g.vertices@[u].level == lv@[u]);
        }
    }
    Ok(max_level)
}

proof fn lemma_count_true_zero(s: Seq<bool>)
    requires
        forall|i: int| 0 <= i < s.len() ==> !s[i],
    ensures
        count_true(s) == 0,
    decreases s.len(),
{
    if s.len() > 0 {
        lemma_count_true_zero(s.drop_last());
    }
}

} // verus!

//! Graph records: the input arena of named vertices, the layout graph of
//! vertex and edge records, and the builders between them.

use vstd::prelude::*;

verus! {

/// A vertex of the input graph: its name and the indices of its children.
pub struct GraphVertex {
    pub value: String,
    pub childs: Vec<usize>,
}

impl GraphVertex {
    pub fn new(value: String) -> (r: Self)
        ensures
            r.value@ == value@,
            r.childs@.len() == 0,
    {
        GraphVertex { value, childs: Vec::new() }
    }
}

/// Input graph: an arena of named vertices, each listing its children.
pub struct DAG {
    pub vertices: Vec<GraphVertex>,
}

/// Layout record of one vertex: its layer, its kind and its box.
#[derive(Clone, Copy, Debug, PartialEq, Eq)]
pub struct Vertex {
    pub level: usize,
    pub is_dummy: bool,
    pub width: usize,
    pub height: usize,
    pub x: usize,
    pub y: usize,
}

/// A directed edge between two vertex indices.
#[derive(Clone, Copy, Debug, PartialEq, Eq)]
pub struct Edge {
    pub source: usize,
    pub target: usize,
    pub routed: bool,
}

/// Largest number of vertices or edges a graph may hold.
pub const MAX_ITEMS: usize = 0x0fff_ffff;

/// The graph under layout: vertex records, their labels and the edges.
pub struct Graph {
    pub vertices: Vec<Vertex>,
    pub labels: Vec<String>,
    pub edges: Vec<Edge>,
}

/// Every edge joins two existing vertices, and the sizes fit 32-bit indices.
pub open spec fn edges_in_range(n: nat, es: Seq<Edge>) -> bool {
    &&& n <= MAX_ITEMS
    &&& es.len() <= MAX_ITEMS
    &&& forall|i: int| 0 <= i < es.len() ==> (#[trigger] es[i]).source < n && es[i].target < n
}

/// The two records agree on everything but the level.
pub open spec fn same_but_level(a: Vertex, b: Vertex) -> bool {
    a.is_dummy == b.is_dummy && a.width == b.width && a.height == b.height && a.x == b.x && a.y == b.y
}

impl Graph {
    pub open spec fn wf(&self) -> bool {
        &&& self.labels@.len() == self.vertices@.len()
        &&& edges_in_range(self.vertices@.len() as nat, self.edges@)
    }

    pub open spec fn levels(&self) -> Seq<int> {
        Seq::new(self.vertices@.len(), |v: int| self.vertices@[v].level as int)
    }
}

impl DAG {
    pub open spec fn wf(&self) -> bool {
        &&& self.vertices@.len() <= MAX_ITEMS
        &&& forall|v: int, j: int|
            0 <= v < self.vertices@.len() && 0 <= j < self.vertices@[v].childs@.len() ==> (#[trigger] self.vertices@[v].childs@[j])
                < self.vertices@.len()
    }

    /// Number of edges held.
    pub open spec fn edge_count(vs: Seq<GraphVertex>) -> nat
        decreases vs.len(),
    {
        if vs.len() == 0 {
            0
        } else {
            Self::edge_count(vs.drop_last()) + vs.last().childs@.len()
        }
    }

    pub fn new() -> (r: DAG)
        ensures
            r.wf(),
            r.vertices@.len() == 0,
    {
        DAG { vertices: Vec::new() }
    }

    /// Adds a vertex without children; returns its index.
    pub fn add_vertex(&mut self, vertex: GraphVertex) -> (r: usize)
        requires
            old(self).wf(),
            old(self).vertices@.len() < MAX_ITEMS,
            vertex.childs@.len() == 0,
        ensures
            final(self).wf(),
            r == old(self).vertices@.len(),
            final(self).vertices@ == old(self).vertices@.push(vertex),
    {
        let r = self.vertices.len();
        self.vertices.push(vertex);
        proof {
            assert forall|v: int, j: int|
                0 <= v < self.vertices@.len() && 0 <= j < self.vertices@[v].childs@.len() implies (#[trigger] self.vertices@[v].childs@[j])
                    < self.vertices@.len() by {
                if v < r {
                    assert(self.vertices@[v] == old(self).vertices@[v]);
                }
            }
        }
        r
    }

    /// Adds the edge `source -> target`.
    pub fn add_edge(&mut self, source: usize, target: usize)
        requires
            old(self).wf(),
            source < old(self).vertices@.len(),
            target < old(self).vertices@.len(),
        ensures
            final(self).wf(),
            final(self).vertices@.len() == old(self).vertices@.len(),
            final(self).vertices@[source as int].childs@ == old(self).vertices@[source as int].childs@.push(target),
            final(self).vertices@[source as int].value == old(self).vertices@[source as int].value,
            forall|v: int| 0 <= v < final(self).vertices@.len() && v != source ==> #[trigger] final(self).vertices@[v] == old(self).vertices@[v],
    {
        let mut childs: Vec<usize> = Vec::new();
        let mut j: usize = 0;
        while j < self.vertices[source].childs.len()
            invariant
                source < self.vertices@.len(),
                j <= self.vertices@[source as int].childs@.len(),
                childs@ == self.vertices@[source as int].childs@.take(j as int),
            decreases self.vertices@[source as int].childs@.len() - j,
        {
            childs.push(self.vertices[source].childs[j]);
            j = j + 1;
            assert(childs@ =~= self.vertices@[source as int].childs@.take(j as int));
        }
        assert(childs@ =~= self.vertices@[source as int].childs@);
        childs.push(target);
        let value = self.vertices[source].value.clone();
        self.vertices.set(source, GraphVertex { value, childs });
        proof {
            assert forall|v: int, j: int|
                0 <= v < self.vertices@.len() && 0 <= j < self.vertices@[v].childs@.len() implies (#[trigger] self.vertices@[v].childs@[j])
                    < self.vertices@.len() by {
                if v != source {
                    assert(self.vertices@[v] == old(self).vertices@[v]);
                } else if j < old(self).vertices@[v].childs@.len() {
                    assert(self.vertices@[v].childs@[j] == old(self).vertices@[v].childs@[j]);
                }
            }
        }
    }

    /// Index of the vertex named `value`, added first when there is none.
    pub fn get_vertex(&mut self, value: &String) -> (r: usize)
        requires
            old(self).wf(),
            old(self).vertices@.len() < MAX_ITEMS,
        ensures
            final(self).wf(),
            r < final(self).vertices@.len(),
            final(self).vertices@[r as int].value@ == value@,
            (exists|v: int| 0 <= v < old(self).vertices@.len() && (#[trigger] old(self).vertices@[v]).value@ == value@)
                ==> final(self).vertices@ == old(self).vertices@,
            !(exists|v: int| 0 <= v < old(self).vertices@.len() && (#[trigger] old(self).vertices@[v]).value@ == value@)
                ==> final(self).vertices@.len() == old(self).vertices@.len() + 1 && r == old(self).vertices@.len()
                    && final(self).vertices@[r as int].childs@.len() == 0 && forall|v: int|
                    0 <= v < old(self).vertices@.len() ==> #[trigger] final(self).vertices@[v] == old(self).vertices@[v],
    {
        let mut i: usize = 0;
        while i < self.vertices.len()
            invariant
                self.wf(),
                self.vertices@ == old(self).vertices@,
                old(self).vertices@.len() < MAX_ITEMS,
                i <= self.vertices@.len(),
                forall|v: int| 0 <= v < i ==> (#[trigger] self.vertices@[v]).value@ != value@,
            decreases self.vertices@.len() - i,
        {
            if self.vertices[i].value == *value {
                return i;
            }
            i = i + 1;
        }
        let r = self.add_vertex(GraphVertex::new(value.clone()));
        r
    }

    /// The graph under layout: one fresh record per vertex, labelled with
    /// its name, and one edge per child link, in vertex order.
    pub fn to_graph(&self) -> (r: Graph)
        requires
            self.wf(),
            Self::edge_count(self.vertices@) <= MAX_ITEMS,
        ensures
            r.wf(),
            r.vertices@.len() == self.vertices@.len(),
            forall|v: int| 0 <= v < r.vertices@.len() ==> (#[trigger] r.labels@[v])@ == self.vertices@[v].value@,
            forall|v: int| 0 <= v < r.vertices@.len() ==> fresh(#[trigger] r.vertices@[v]),
            r.edges@.len() == Self::edge_count(self.vertices@),
            r.edges@ == child_edges(self.vertices@),
            forall|i: int| 0 <= i < r.edges@.len() ==> !(#[trigger] r.edges@[i]).routed,
    {
        let n = self.vertices.len();
        let mut g = Graph { vertices: Vec::new(), labels: Vec::new(), edges: Vec::new() };
        let mut v: usize = 0;
        while v < n
            invariant
                self.wf(),
                n == self.vertices@.len(),
                Self::edge_count(self.vertices@) <= MAX_ITEMS,
                v <= n,
                g.vertices@.len() == v,
                g.labels@.len() == v,
                forall|u: int| 0 <= u < v ==> (#[trigger] g.labels@[u])@ == self.vertices@[u].value@,
                forall|u: int| 0 <= u < v ==> fresh(#[trigger] g.vertices@[u]),
                g.edges@.len() == Self::edge_count(self.vertices@.take(v as int)),
                g.edges@ == child_edges(self.vertices@.take(v as int)),
                forall|i: int| 0 <= i < g.edges@.len() ==> (#[trigger] g.edges@[i]).source < n && g.edges@[i].target < n && !g.edges@[i].routed,
            decreases n - v,
        {
            proof {
                assert(self.vertices@.take(v + 1).drop_last() =~= self.vertices@.take(v as int));
                lemma_edge_count_prefix(self.vertices@, v + 1);
            }
            let mut j: usize = 0;
            let ghost base = g.edges@.len();
            let ghost e0 = g.edges@;
            while j < self.vertices[v].childs.len()
                invariant
                    self.wf(),
                    v < n,
                    n == self.vertices@.len(),
                    j <= self.vertices@[v as int].childs@.len(),
                    g.edges@.len() == base + j,
                    g.vertices@.len() == v,
                    g.labels@.len() == v,
                    forall|u: int| 0 <= u < v ==> (#[trigger] g.labels@[u])@ == self.vertices@[u].value@,
                    forall|u: int| 0 <= u < v ==> fresh(#[trigger] g.vertices@[u]),
                    base + self.vertices@[v as int].childs@.len() <= MAX_ITEMS,
                    forall|i: int| 0 <= i < g.edges@.len() ==> (#[trigger] g.edges@[i]).source < n && g.edges@[i].target < n && !g.edges@[i].routed,
                    e0.len() == base,
                    g.edges@ == e0 + links_of(v as int, self.vertices@[v as int].childs@.take(j as int)),
                decreases self.vertices@[v as int].childs@.len() - j,
            {
                let t = self.vertices[v].childs[j];
                g.edges.push(Edge { source: v, target: t, routed: false });
                j = j + 1;
                assert(g.edges@ =~= e0 + links_of(v as int, self.vertices@[v as int].childs@.take(j as int)));
            }
            proof {
                assert(self.vertices@[v as int].childs@.take(j as int) =~= self.vertices@[v as int].childs@);
                assert(self.vertices@.take(v + 1).last() == self.vertices@[v as int]);
            }
            g.vertices.push(Vertex { level: 0, is_dummy: false, width: 0, height: 0, x: 0, y: 0 });
            g.labels.push(self.vertices[v].value.clone());
            v = v + 1;
        }
        assert(self.vertices@.take(n as int) =~= self.vertices@);
        g
    }
}

/// One edge per child link, vertex by vertex in index order, each vertex's
/// children in the order listed; none routed.
pub open spec fn child_edges(vs: Seq<GraphVertex>) -> Seq<Edge>
    decreases vs.len(),
{
    if vs.len() == 0 {
        seq![]
    } else {
        child_edges(vs.drop_last()) + links_of(vs.len() - 1, vs.last().childs@)
    }
}

pub open spec fn links_of(v: int, childs: Seq<usize>) -> Seq<Edge> {
    Seq::new(childs.len(), |j: int| Edge { source: v as usize, target: childs[j], routed: false })
}

/// A vertex record as the builder makes it: real, unplaced, unlevelled.
pub open spec fn fresh(v: Vertex) -> bool {
    v.level == 0 && !v.is_dummy && v.width == 0 && v.height == 0 && v.x == 0 && v.y == 0
}

proof fn lemma_edge_count_prefix(vs: Seq<GraphVertex>, k: int)
    requires
        0 <= k <= vs.len(),
    ensures
        DAG::edge_count(vs.take(k)) <= DAG::edge_count(vs),
    decreases vs.len() - k,
{
    if k < vs.len() {
        lemma_edge_count_prefix(vs, k + 1);
        assert(vs.take(k + 1).drop_last() =~= vs.take(k));
    } else {
        assert(vs.take(k) =~= vs);
    }
}

/// No two vertices share a name.
pub open spec fn names_distinct(vs: Seq<GraphVertex>) -> bool {
    forall|v: int, w: int| 0 <= v < vs.len() && 0 <= w < vs.len() && v != w ==> (#[trigger] vs[v]).value@ != (#[trigger] vs[w]).value@
}

proof fn lemma_edge_count_update(vs: Seq<GraphVertex>, i: int, nv: GraphVertex)
    requires
        0 <= i < vs.len(),
        nv.childs@.len() == vs[i].childs@.len() + 1,
    ensures
        DAG::edge_count(vs.update(i, nv)) == DAG::edge_count(vs) + 1,
    decreases vs.len(),
{
    let ws = vs.update(i, nv);
    if i == vs.len() - 1 {
        assert(ws.drop_last() =~= vs.drop_last());
    } else {
        assert(ws.drop_last() =~= vs.drop_last().update(i, nv));
        lemma_edge_count_update(vs.drop_last(), i, nv);
    }
}

proof fn lemma_edge_count_push(vs: Seq<GraphVertex>, nv: GraphVertex)
    requires
        nv.childs@.len() == 0,
    ensures
        DAG::edge_count(vs.push(nv)) == DAG::edge_count(vs),
{
    assert(vs.push(nv).drop_last() =~= vs);
}

impl DAG {
    /// Whether `source` already lists `target` as a child.
    pub fn has_edge(&self, source: usize, target: usize) -> (r: bool)
        requires
            source < self.vertices@.len(),
        ensures
            r == self.vertices@[source as int].childs@.contains(target),
    {
        let mut j: usize = 0;
        while j < self.vertices[source].childs.len()
            invariant
                source < self.vertices@.len(),
                j <= self.vertices@[source as int].childs@.len(),
                forall|k: int| 0 <= k < j ==> self.vertices@[source as int].childs@[k] != target,
            decreases self.vertices@[source as int].childs@.len() - j,
        {
            if self.vertices[source].childs[j] == target {
                return true;
            }
            j = j + 1;
        }
        false
    }
}

/// Some pair names `name`.
pub open spec fn named_in(rel: Seq<(String, String)>, name: Seq<char>) -> bool {
    exists|k: int| 0 <= k < rel.len() && ((#[trigger] rel[k]).0@ == name || rel[k].1@ == name)
}

/// Every vertex is named in some pair.
pub open spec fn all_named(rel: Seq<(String, String)>, vs: Seq<GraphVertex>) -> bool {
    forall|v: int| 0 <= v < vs.len() ==> named_in(rel, (#[trigger] vs[v]).value@)
}

proof fn lemma_named_step(rel: Seq<(String, String)>, i: int, v0: Seq<GraphVertex>, v1: Seq<GraphVertex>, name: Seq<char>)
    requires
        0 <= i < rel.len(),
        rel[i].0@ == name || rel[i].1@ == name,
        all_named(rel.take(i), v0),
        v1.len() <= v0.len() + 1,
        v0.len() <= v1.len(),
        forall|v: int| 0 <= v < v0.len() ==> (#[trigger] v1[v]).value == v0[v].value,
        forall|v: int| v0.len() <= v < v1.len() ==> (#[trigger] v1[v]).value@ == name,
    ensures
        all_named(rel.take(i + 1), v1),
{
    let r0 = rel.take(i);
    let r1 = rel.take(i + 1);
    assert forall|v: int| 0 <= v < v1.len() implies named_in(r1, (#[trigger] v1[v]).value@) by {
        if v < v0.len() {
            assert(named_in(r0, v0[v].value@));
            let k = choose|k: int| 0 <= k < r0.len() && ((#[trigger] r0[k]).0@ == v0[v].value@ || r0[k].1@ == v0[v].value@);
            assert(r1[k] == r0[k]);
        } else {
            assert(r1[i] == rel[i]);
        }
    }
}

proof fn lemma_named_step2(rel: Seq<(String, String)>, i: int, v0: Seq<GraphVertex>, v1: Seq<GraphVertex>, name: Seq<char>)
    requires
        0 <= i < rel.len(),
        rel[i].0@ == name || rel[i].1@ == name,
        all_named(rel.take(i + 1), v0),
        v0.len() <= v1.len() <= v0.len() + 1,
        forall|v: int| 0 <= v < v0.len() ==> (#[trigger] v1[v]).value == v0[v].value,
        forall|v: int| v0.len() <= v < v1.len() ==> (#[trigger] v1[v]).value@ == name,
    ensures
        all_named(rel.take(i + 1), v1),
{
    let r1 = rel.take(i + 1);
    assert forall|v: int| 0 <= v < v1.len() implies named_in(r1, (#[trigger] v1[v]).value@) by {
        if v < v0.len() {
            assert(named_in(r1, v0[v].value@));
        } else {
            assert(r1[i] == rel[i]);
        }
    }
}

/// Builds the input graph from relationship pairs: each name becomes a
/// vertex on its first appearance, each pair an edge from the first name
/// to the second; a repeated pair gives one edge.
#[verifier::rlimit(40)]
pub fn init_dag(relationships: &Vec<(String, String)>) -> (r: DAG)
    requires
        2 * relationships@.len() < MAX_ITEMS,
    ensures
        r.wf(),
        names_distinct(r.vertices@),
        DAG::edge_count(r.vertices@) <= relationships@.len(),
        all_named(relationships@, r.vertices@),
        forall|i: int|
            0 <= i < relationships@.len() ==> exists|s: int, t: int|
                0 <= s < r.vertices@.len() && 0 <= t < r.vertices@.len() && (#[trigger] relationships@[i]).0@
                    == r.vertices@[s].value@ && relationships@[i].1@ == r.vertices@[t].value@
                    && r.vertices@[s].childs@.contains(t as usize),
{
    let mut d = DAG::new();
    let mut i: usize = 0;
    while i < relationships.len()
        invariant
            d.wf(),
            names_distinct(d.vertices@),
            2 * relationships@.len() < MAX_ITEMS,
            i <= relationships@.len(),
            d.vertices@.len() <= 2 * i,
            DAG::edge_count(d.vertices@) <= i,
            all_named(relationships@.take(i as int), d.vertices@),
            forall|k: int|
                0 <= k < i ==> exists|s: int, t: int|
                    0 <= s < d.vertices@.len() && 0 <= t < d.vertices@.len() && (#[trigger] relationships@[k]).0@
                        == d.vertices@[s].value@ && relationships@[k].1@ == d.vertices@[t].value@
                        && d.vertices@[s].childs@.contains(t as usize),
        decreases relationships@.len() - i,
    {
        let ghost v0 = d.vertices@;
        let a = d.get_vertex(&relationships[i].0);
        let ghost v1 = d.vertices@;
        proof {
            lemma_get_vertex_keeps(v0, v1, relationships@[i as int].0@);
        }
        let b = d.get_vertex(&relationships[i].1);
        let ghost v2 = d.vertices@;
        proof {
            lemma_get_vertex_keeps(v1, v2, relationships@[i as int].1@);
            lemma_get_vertex_keeps(v0, v1, relationships@[i as int].0@);
            lemma_named_step(relationships@, i as int, v0, v1, relationships@[i as int].0@);
            lemma_named_step2(relationships@, i as int, v1, v2, relationships@[i as int].1@);
            assert forall|k: int|
                0 <= k < i implies exists|s: int, t: int|
                    0 <= s < v2.len() && 0 <= t < v2.len() && (#[trigger] relationships@[k]).0@
                        == v2[s].value@ && relationships@[k].1@ == v2[t].value@
                        && v2[s].childs@.contains(t as usize) by {
                let (s, t) = choose|s: int, t: int|
                    0 <= s < v0.len() && 0 <= t < v0.len() && relationships@[k].0@ == v0[s].value@
                        && relationships@[k].1@ == v0[t].value@ && v0[s].childs@.contains(t as usize);
                assert(v2[s] == v1[s] && v1[s] == v0[s]);
                assert(v2[t] == v1[t] && v1[t] == v0[t]);
            }
        }
        if !d.has_edge(a, b) {
            let ghost v3 = d.vertices@;
            d.add_edge(a, b);
            proof {
                assert forall|v: int| 0 <= v < d.vertices@.len() implies named_in(relationships@.take(i + 1), (#[trigger] d.vertices@[v]).value@) by {
                    assert(d.vertices@[v].value == v3[v].value);
                    assert(named_in(relationships@.take(i + 1), v3[v].value@));
                }
                lemma_edge_count_update(v3, a as int, d.vertices@[a as int]);
                assert(d.vertices@ =~= v3.update(a as int, d.vertices@[a as int]));
                assert forall|v: int, w: int| 0 <= v < d.vertices@.len() && 0 <= w < d.vertices@.len() && v != w implies
                    (#[trigger] d.vertices@[v]).value@ != (#[trigger] d.vertices@[w]).value@ by {
                    assert(d.vertices@[v].value == v3[v].value);
                    assert(d.vertices@[w].value == v3[w].value);
                }
                assert forall|k: int|
                    0 <= k < i + 1 implies exists|s: int, t: int|
                        0 <= s < d.vertices@.len() && 0 <= t < d.vertices@.len() && (#[trigger] relationships@[k]).0@
                            == d.vertices@[s].value@ && relationships@[k].1@ == d.vertices@[t].value@
                            && d.vertices@[s].childs@.contains(t as usize) by {
                    if k < i {
                        let (s, t) = choose|s: int, t: int|
                            0 <= s < v3.len() && 0 <= t < v3.len() && (#[trigger] relationships@[k]).0@ == v3[s].value@
                                && relationships@[k].1@ == v3[t].value@ && v3[s].childs@.contains(t as usize);
                        assert(d.vertices@[t].value == v3[t].value);
                        assert(d.vertices@[s].value == v3[s].value);
                        if s == a {
                            let j = choose|j: int| 0 <= j < v3[s].childs@.len() && v3[s].childs@[j] == t as usize;
                            assert(d.vertices@[s].childs@[j] == t as usize);
                        }
                        assert(d.vertices@[s].childs@.contains(t as usize));
                    } else {
                        assert(d.vertices@[a as int].childs@.last() == b);
                        assert(d.vertices@[a as int].childs@.contains(b));
                        assert(d.vertices@[b as int].value == v3[b as int].value);
                    }
                }
            }
        } else {
            proof {
                assert forall|k: int|
                    0 <= k < i + 1 implies exists|s: int, t: int|
                        0 <= s < d.vertices@.len() && 0 <= t < d.vertices@.len() && (#[trigger] relationships@[k]).0@
                            == d.vertices@[s].value@ && relationships@[k].1@ == d.vertices@[t].value@
                            && d.vertices@[s].childs@.contains(t as usize) by {
                    if k == i {
                        assert(d.vertices@[a as int].childs@.contains(b));
                    }
                }
            }
        }
        i = i + 1;
    }
    assert forall|k: int|
        0 <= k < relationships@.len() implies exists|s: int, t: int|
            0 <= s < d.vertices@.len() && 0 <= t < d.vertices@.len() && (#[trigger] relationships@[k]).0@
                == d.vertices@[s].value@ && relationships@[k].1@ == d.vertices@[t].value@
                && d.vertices@[s].childs@.contains(t as usize) by {
        assert(k < i);
    }
    assert(relationships@.take(i as int) =~= relationships@);
    d
}

/// `get_vertex` keeps names distinct, existing vertices, and the edge count.
proof fn lemma_get_vertex_keeps(v0: Seq<GraphVertex>, v1: Seq<GraphVertex>, name: Seq<char>)
    requires
        names_distinct(v0),
        (exists|v: int| 0 <= v < v0.len() && (#[trigger] v0[v]).value@ == name) ==> v1 == v0,
        !(exists|v: int| 0 <= v < v0.len() && (#[trigger] v0[v]).value@ == name) ==> v1.len() == v0.len() + 1
            && v1[v0.len() as int].value@ == name && v1[v0.len() as int].childs@.len() == 0 && forall|v: int|
            0 <= v < v0.len() ==> #[trigger] v1[v] == v0[v],
    ensures
        names_distinct(v1),
        DAG::edge_count(v1) == DAG::edge_count(v0),
        v1.len() <= v0.len() + 1,
        forall|v: int| 0 <= v < v0.len() ==> #[trigger] v1[v] == v0[v],
{
    if !(exists|v: int| 0 <= v < v0.len() && (#[trigger] v0[v]).value@ == name) {
        assert(v1 =~= v0.push(v1[v0.len() as int]));
        lemma_edge_count_push(v0, v1[v0.len() as int]);
    }
}

/// The label assigned to `name`: the value of the last pair whose key is
/// `name`.
pub open spec fn assigned(assign: Seq<(String, String)>, name: Seq<char>) -> Option<Seq<char>>
    decreases assign.len(),
{
    if assign.len() == 0 {
        None
    } else if assign.last().0@ == name {
        Some(assign.last().1@)
    } else {
        assigned(assign.drop_last(), name)
    }
}

/// Index of the last pair whose key is `name`.
pub(crate) fn lookup_assigned(assign: &Vec<(String, String)>, name: &String) -> (r: Option<usize>)
    ensures
        r matches Some(j) ==> j < assign@.len() && assigned(assign@, name@) == Some(assign@[j as int].1@),
        r is None ==> assigned(assign@, name@) is None,
{
    let mut k: usize = assign.len();
    assert(assign@.take(k as int) =~= assign@);
    while k > 0
        invariant
            k <= assign@.len(),
            assigned(assign@, name@) == assigned(assign@.take(k as int), name@),
        decreases k,
    {
        proof {
            assert(assign@.take(k as int).drop_last() =~= assign@.take(k - 1));
            assert(assign@.take(k as int).last() == assign@[k - 1]);
        }
        if assign[k - 1].0 == *name {
            return Some(k - 1);
        }
        k = k - 1;
    }
    None
}

/// Gives every vertex its display label, then sizes every box for it:
/// the largest of the label's length, the in-degree and the out-degree,
/// plus padding, by three rows; a placeholder is one cell.
pub fn replace_text(g: &mut Graph, assign: &Vec<(String, String)>)
    requires
        old(g).wf(),
        forall|v: int| 0 <= v < old(g).labels@.len() ==> (#[trigger] old(g).labels@[v])@.len() <= crate::place::MAX_COORD,
        forall|k: int| 0 <= k < assign@.len() ==> (#[trigger] assign@[k]).1@.len() <= crate::place::MAX_COORD,
    ensures
        final(g).wf(),
        final(g).edges@ == old(g).edges@,
        final(g).vertices@.len() == old(g).vertices@.len(),
        forall|v: int| 0 <= v < final(g).labels@.len() ==> (#[trigger] final(g).labels@[v])@ == match assigned(assign@, old(g).labels@[v]@) {
            Some(l) => l,
            None => old(g).labels@[v]@,
        },
        forall|v: int|
            0 <= v < final(g).vertices@.len() ==> {
                let (a, b) = (#[trigger] final(g).vertices@[v], old(g).vertices@[v]);
                &&& a.level == b.level && a.is_dummy == b.is_dummy && a.x == b.x && a.y == b.y
                &&& a.width == crate::place::box_width(b.is_dummy, final(g).labels@[v]@, old(g).edges@, v)
                &&& a.height == if b.is_dummy { 1usize } else { crate::place::ROW_HEIGHT }
            },
{
    substitute_labels(g, assign);
    proof {
        assert forall|v: int| 0 <= v < g.labels@.len() implies (#[trigger] g.labels@[v])@.len() <= crate::place::MAX_COORD by {
            if let Some(l) = assigned(assign@, old(g).labels@[v]@) {
                lemma_assigned_is_value(assign@, old(g).labels@[v]@);
            }
        }
    }
    crate::place::set_sizes(g);
}

proof fn lemma_assigned_is_value(assign: Seq<(String, String)>, name: Seq<char>)
    requires
        assigned(assign, name) is Some,
    ensures
        exists|k: int| 0 <= k < assign.len() && (#[trigger] assign[k]).1@ == assigned(assign, name)->0,
    decreases assign.len(),
{
    if assign.last().0@ != name {
        lemma_assigned_is_value(assign.drop_last(), name);
        let k = choose|k: int| 0 <= k < assign.drop_last().len() && (#[trigger] assign.drop_last()[k]).1@ == assigned(assign.drop_last(), name)->0;
        assert(assign[k] == assign.drop_last()[k]);
    } else {
        assert(assign[assign.len() - 1] == assign.last());
    }
}

/// Replaces each vertex label that has an assigned display label.
pub(crate) fn substitute_labels(g: &mut Graph, assign: &Vec<(String, String)>)
    requires
        old(g).wf(),
    ensures
        final(g).wf(),
        final(g).vertices@ == old(g).vertices@,
        final(g).edges@ == old(g).edges@,
        forall|v: int| 0 <= v < final(g).labels@.len() ==> (#[trigger] final(g).labels@[v])@ == match assigned(assign@, old(g).labels@[v]@) {
            Some(l) => l,
            None => old(g).labels@[v]@,
        },
{
    let ghost ls0 = g.labels@;
    let mut v: usize = 0;
    while v < g.labels.len()
        invariant
            g.wf(),
            g.vertices@ == old(g).vertices@,
            g.edges@ == old(g).edges@,
            ls0 == old(g).labels@,
            g.labels@.len() == ls0.len(),
            v <= ls0.len(),
            forall|u: int| v <= u < ls0.len() ==> #[trigger] g.labels@[u] == ls0[u],
            forall|u: int| 0 <= u < v ==> (#[trigger] g.labels@[u])@ == match assigned(assign@, ls0[u]@) {
                Some(l) => l,
                None => ls0[u]@,
            },
        decreases ls0.len() - v,
    {
        let found = lookup_assigned(assign, &g.labels[v]);
        if let Some(j) = found {
            let l = assign[j].1.clone();
            g.labels.set(v, l);
        }
        v = v + 1;
    }
}


} // verus!

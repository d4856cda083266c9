//! The whole layout of a directed acyclic graph and its text output.

use vstd::prelude::*;
use crate::graph::{Edge, Graph, MAX_ITEMS, Vertex};
use crate::level::{admits_layering, assign_level, is_longest_path_layering};
use crate::dummy::{add_dummy, below_some, dummy_count, unit_edges};
use crate::order::{get_perm_levels, layers_view, layers_wf};
use crate::minimize::{minimize_crossings_with, random_draws};
use crate::place::{MAX_COORD, ROW_HEIGHT, layout_fits, place_node};
use crate::graph::{assigned, replace_text, substitute_labels};
use crate::route::{Connection, ROUTE_LIMIT, add_connections, lane_total, lanes_ok, lanes_above, lemma_lane_total_prefix};
use crate::render::{Style, canvas_ok, drawable, drawing, grid, no_connectors, picture, render};
use crate::text::push_char;
use vstd::string::StringSliceAdditionalSpecFns;

verus! {

/// Why no layout was produced.
#[derive(Clone, Copy, Debug, PartialEq, Eq, Structural)]
pub enum LayoutError {
    /// The graph has a directed cycle.
    CyclicGraph,
    /// The layout would not fit the coordinate range.
    TooLarge,
}

/// A laid-out diagram: the graph with placeholders, levels, boxes and
/// rows; its layer orders; the connectors and lane ranges of each boundary;
/// and the canvas size.
pub struct DagGraph {
    pub graph: Graph,
    pub layers: Vec<Vec<usize>>,
    pub connections: Vec<Vec<Connection>>,
    pub spacing: Vec<(i64, i64)>,
    pub crossings: u128,
    pub max_width: usize,
    pub max_height: usize,
}

impl DagGraph {
    pub open spec fn wf(&self) -> bool {
        &&& self.graph.wf()
        &&& forall|v: int| 0 <= v < self.graph.vertices@.len() ==> (#[trigger] self.graph.vertices@[v]).x
            + self.graph.vertices@[v].width <= ROUTE_LIMIT && self.graph.vertices@[v].y
            + self.graph.vertices@[v].height <= ROUTE_LIMIT
        &&& forall|v: int| 0 <= v < self.graph.labels@.len() ==> (#[trigger] self.graph.labels@[v])@.len() <= MAX_COORD
        &&& forall|v: int| 0 <= v < self.graph.vertices@.len() ==> drawable(#[trigger] self.graph.vertices@[v], self.graph.labels@[v]@)
        &&& lanes_ok(self.spacing@)
        &&& 0 <= lane_total(self.spacing@) <= MAX_ITEMS
        &&& self.spacing@.len() <= MAX_ITEMS
        &&& self.connections@.len() == self.spacing@.len()
        &&& forall|k: int, j: int| 0 <= k < self.connections@.len() && 0 <= j < self.connections@[k]@.len() ==>
            match #[trigger] self.connections@[k]@[j] {
                Connection::Straight { y, .. } => y < ROUTE_LIMIT,
                _ => true,
            }
    }

    /// Levels, placeholders and box sizes of `g`; returns the graph and its
    /// largest level.
    fn prepare(input: Graph, assign: &Vec<(String, String)>) -> (r: Result<(Graph, usize), LayoutError>)
        requires
            input.wf(),
            forall|v: int| 0 <= v < input.vertices@.len() ==> !(#[trigger] input.vertices@[v]).is_dummy,
        ensures
            r == Err::<(Graph, usize), LayoutError>(LayoutError::CyclicGraph) <==> !admits_layering(
                input.vertices@.len() as nat,
                input.edges@,
            ),
            r == Err::<(Graph, usize), LayoutError>(LayoutError::TooLarge) ==> admits_layering(
                input.vertices@.len() as nat,
                input.edges@,
            ),
            r matches Ok((h, m)) ==> {
                &&& h.wf()
                &&& m <= MAX_ITEMS
                &&& h.vertices@.len() >= input.vertices@.len()
                &&& is_longest_path_layering(
                    Seq::new(input.vertices@.len(), |v: int| h.vertices@[v].level as int),
                    input.edges@,
                )
                &&& unit_edges(&h)
                &&& forall|v: int| 0 <= v < h.vertices@.len() ==> 1 <= #[trigger] h.vertices@[v].level <= m
                &&& forall|v: int| 0 <= v < h.labels@.len() ==> (#[trigger] h.labels@[v])@.len() <= MAX_COORD
                &&& forall|v: int| 0 <= v < h.vertices@.len() ==> (#[trigger] h.vertices@[v]).height <= ROW_HEIGHT
                    && h.vertices@[v].height >= 1
                &&& forall|v: int| 0 <= v < h.vertices@.len() ==> drawable(#[trigger] h.vertices@[v], h.labels@[v]@)
            },
    {
        let mut g = input;
        substitute_labels(&mut g, assign);
        let ghost n = g.vertices@.len();
        let ghost es0 = g.edges@;
        let max_level = match assign_level(&mut g) {
            Ok(m) => m,
            Err(_) => {
                return Err(LayoutError::CyclicGraph);
            },
        };
        let ghost lv1 = g.levels();
        proof {
            assert(lv1.len() == n);
            assert(admits_layering(n as nat, es0)) by {
                assert(lv1.len() == n && crate::level::is_layering(lv1, es0));
            }
        }
        let k = match dummy_count(&g) {
            Some(k) => k,
            None => {
                return Err(LayoutError::TooLarge);
            },
        };
        let ghost vs1 = g.vertices@;
        let ghost ls1 = g.labels@;
        add_dummy(&mut g);
        let ghost ls2 = g.labels@;
        let mut i: usize = 0;
        while i < g.labels.len()
            invariant
                g.wf(),
                admits_layering(n as nat, es0),
                n == input.vertices@.len(),
                es0 == input.edges@,
                i <= g.labels@.len(),
                forall|v: int| 0 <= v < i ==> (#[trigger] g.labels@[v])@.len() <= MAX_COORD,
                g.labels@ == ls2,
            decreases g.labels@.len() - i,
        {
            if g.labels[i].as_str().unicode_len() > MAX_COORD {
                return Err(LayoutError::TooLarge);
            }
            i = i + 1;
        }
        let ghost vs2 = g.vertices@;
        let ghost es2 = g.edges@;
        proof {
            assert forall|v: int| 0 <= v < vs2.len() implies 1 <= #[trigger] vs2[v].level <= max_level by {
                if v >= n {
                    assert(below_some(vs1, vs2[v].level));
                    let u = choose|u: int| 0 <= u < vs1.len() && vs2[v].level < vs1[u].level;
                    assert(vs1[u].level <= max_level);
                } else {
                    assert(vs2[v] == vs1[v]);
                    assert(lv1[v] >= 1);
                }
            }
        }
        let no_names: Vec<(String, String)> = Vec::new();
        replace_text(&mut g, &no_names);
        proof {
            assert forall|v: int| 0 <= v < g.labels@.len() implies (#[trigger] g.labels@[v]) @ == ls2[v]@ by {
                assert(assigned(no_names@, ls2[v]@) is None);
            }
        }
        proof {
            assert forall|v: int| 0 <= v < g.vertices@.len() implies 1 <= #[trigger] g.vertices@[v].level <= max_level by {
                assert(g.vertices@[v].level == vs2[v].level);
                assert(1 <= vs2[v].level <= max_level);
            }
            assert forall|i: int| 0 <= i < g.edges@.len() implies g.vertices@[(#[trigger] g.edges@[i]).target as int].level
                == g.vertices@[g.edges@[i].source as int].level + 1 by {
                assert(vs2[es2[i].target as int].level == vs2[es2[i].source as int].level + 1);
            }
            assert forall|v: int| 0 <= v < n implies #[trigger] g.vertices@[v].level == lv1[v] by {
                assert(vs2[v] == vs1[v]);
            }
            assert(Seq::new(n as nat, |v: int| g.vertices@[v].level as int) =~= lv1);
            assert forall|v: int| 0 <= v < g.vertices@.len() implies drawable(#[trigger] g.vertices@[v], g.labels@[v]@) by {
                if v < n {
                    assert(vs2[v] == vs1[v]);
                    assert(!vs1[v].is_dummy);
                }
                if vs2[v].is_dummy {
                    assert(v >= n);
                    assert(ls2[v]@.len() == 0);
                }
            }
        }
        Ok((g, max_level))
    }

    /// Lays out `g` with the given draws for the crossing search: levels,
    /// placeholders, box sizes, layer orders, placement and connectors.
    /// Fails with `CyclicGraph` exactly when the graph has no layering (it
    /// has a directed cycle); with `TooLarge` only for a graph that has
    /// one but whose layout would leave the coordinate range.
    pub fn layout_with(g: Graph, assign: &Vec<(String, String)>, draws: &Vec<usize>) -> (r: Result<DagGraph, LayoutError>)
        requires
            g.wf(),
            forall|v: int| 0 <= v < g.vertices@.len() ==> !(#[trigger] g.vertices@[v]).is_dummy,
        ensures
            r == Err::<DagGraph, LayoutError>(LayoutError::CyclicGraph) <==> !admits_layering(
                g.vertices@.len() as nat,
                g.edges@,
            ),
            r == Err::<DagGraph, LayoutError>(LayoutError::TooLarge) ==> admits_layering(
                g.vertices@.len() as nat,
                g.edges@,
            ),
            r matches Ok(d) ==> {
                &&& d.wf()
                &&& d.graph.vertices@.len() >= g.vertices@.len()
                &&& is_longest_path_layering(
                    Seq::new(g.vertices@.len(), |v: int| d.graph.vertices@[v].level as int),
                    g.edges@,
                )
                &&& unit_edges(&d.graph)
                &&& layers_wf(&d.graph, layers_view(&d.layers))
                &&& d.max_height == ROW_HEIGHT * d.layers@.len() + lane_total(d.spacing@)
                &&& d.crossings == crate::order::layers_crossings(&d.graph, layers_view(&d.layers))
            },
    {
        let ghost n = g.vertices@.len();
        let (g, max_level) = match Self::prepare(g, assign) {
            Ok(p) => p,
            Err(e) => {
                return Err(e);
            },
        };
        let ghost lv1 = Seq::new(n, |v: int| g.vertices@[v].level as int);
        Self::arrange(g, max_level, draws, Ghost(n), Ghost(lv1))
    }

    /// Layer orders, placement and connectors of a prepared graph.
    fn arrange(g: Graph, max_level: usize, draws: &Vec<usize>, Ghost(n): Ghost<nat>, Ghost(lv1): Ghost<Seq<int>>) -> (r: Result<DagGraph, LayoutError>)
        requires
            g.wf(),
            max_level <= MAX_ITEMS,
            n <= g.vertices@.len(),
            lv1 == Seq::new(n, |v: int| g.vertices@[v].level as int),
            unit_edges(&g),
            forall|v: int| 0 <= v < g.vertices@.len() ==> 1 <= #[trigger] g.vertices@[v].level <= max_level,
            forall|v: int| 0 <= v < g.labels@.len() ==> (#[trigger] g.labels@[v])@.len() <= MAX_COORD,
            forall|v: int| 0 <= v < g.vertices@.len() ==> (#[trigger] g.vertices@[v]).height <= ROW_HEIGHT
                && g.vertices@[v].height >= 1,
            forall|v: int| 0 <= v < g.vertices@.len() ==> drawable(#[trigger] g.vertices@[v], g.labels@[v]@),
        ensures
            r is Err ==> r == Err::<DagGraph, LayoutError>(LayoutError::TooLarge),
            r matches Ok(d) ==> {
                &&& d.wf()
                &&& d.graph.vertices@.len() == g.vertices@.len()
                &&& Seq::new(n, |v: int| d.graph.vertices@[v].level as int) == lv1
                &&& unit_edges(&d.graph)
                &&& layers_wf(&d.graph, layers_view(&d.layers))
                &&& d.max_height == ROW_HEIGHT * d.layers@.len() + lane_total(d.spacing@)
                &&& d.crossings == crate::order::layers_crossings(&d.graph, layers_view(&d.layers))
            },
    {
        let mut g = g;
        let layers = get_perm_levels(&g, max_level);
        if !layout_fits(&g, &layers) {
            return Err(LayoutError::TooLarge);
        }
        let (best, crossings) = minimize_crossings_with(&g, &layers, draws);
        let ghost vs3 = g.vertices@;
        let ghost es3 = g.edges@;
        let ghost g3 = g;
        if !layout_fits(&g, &best) {
            return Err(LayoutError::TooLarge);
        }
        let (width, rows) = place_node(&mut g, &best);
        let ghost vs4 = g.vertices@;
        proof {
            assert forall|v: int| 0 <= v < g.vertices@.len() implies (#[trigger] g.vertices@[v]).x + g.vertices@[v].width <= MAX_COORD
                && g.vertices@[v].y + g.vertices@[v].height <= MAX_COORD && g.vertices@[v].level >= 1
                && g.vertices@[v].height >= 1 by {
                let lvl = g.vertices@[v].level;
                assert(1 <= lvl <= best@.len());
                assert(g.vertices@[v].height <= ROW_HEIGHT);
                assert(ROW_HEIGHT * (lvl - 1) + ROW_HEIGHT <= ROW_HEIGHT * best@.len()) by (nonlinear_arith)
                    requires 1 <= lvl <= best@.len();
            }
        }
        let (connections, spacing, w2) = add_connections(&mut g, &best, width);
        proof {
            assert forall|v: int| 0 <= v < g.vertices@.len() implies drawable(#[trigger] g.vertices@[v], g.labels@[v]@) by {
                assert(drawable(vs3[v], g3.labels@[v]@));
            }
            assert forall|v: int| 0 <= v < g.vertices@.len() implies (#[trigger] g.vertices@[v]).x
                + g.vertices@[v].width <= ROUTE_LIMIT && g.vertices@[v].y + g.vertices@[v].height <= ROUTE_LIMIT by {
                lemma_lane_total_prefix(spacing@, vs4[v].level - 1);
                assert(vs4[v].y + vs4[v].height <= MAX_COORD);
            }
            assert forall|i: int| 0 <= i < g.edges@.len() implies g.vertices@[(#[trigger] g.edges@[i]).target as int].level
                == g.vertices@[g.edges@[i].source as int].level + 1 by {
                assert(vs3[es3[i].target as int].level == vs3[es3[i].source as int].level + 1);
            }
            crate::place::lemma_layers_keep(&g3, &g, layers_view(&best));
            crate::order::lemma_crossings_same(&g3, &g, layers_view(&best));
            assert(Seq::new(n, |v: int| g.vertices@[v].level as int) =~= lv1);
            lemma_lane_total_prefix(spacing@, spacing@.len() as int);
            assert(spacing@.take(spacing@.len() as int) =~= spacing@);
        }
        let depth = lanes_above(&spacing, spacing.len());
        let d = DagGraph {
            graph: g,
            layers: best,
            connections,
            spacing,
            crossings,
            max_width: w2,
            max_height: rows + depth,
        };
        Ok(d)
    }

    /// `layout_with` on fresh random draws, as many as the search takes.
    pub fn layout(g: Graph, assign: &Vec<(String, String)>) -> (r: Result<DagGraph, LayoutError>)
        requires
            g.wf(),
            forall|v: int| 0 <= v < g.vertices@.len() ==> !(#[trigger] g.vertices@[v]).is_dummy,
        ensures
            r == Err::<DagGraph, LayoutError>(LayoutError::CyclicGraph) <==> !admits_layering(
                g.vertices@.len() as nat,
                g.edges@,
            ),
            r == Err::<DagGraph, LayoutError>(LayoutError::TooLarge) ==> admits_layering(
                g.vertices@.len() as nat,
                g.edges@,
            ),
            r matches Ok(d) ==> {
                &&& d.wf()
                &&& d.graph.vertices@.len() >= g.vertices@.len()
                &&& is_longest_path_layering(
                    Seq::new(g.vertices@.len(), |v: int| d.graph.vertices@[v].level as int),
                    g.edges@,
                )
                &&& unit_edges(&d.graph)
                &&& layers_wf(&d.graph, layers_view(&d.layers))
                &&& d.max_height == ROW_HEIGHT * d.layers@.len() + lane_total(d.spacing@)
                &&& d.crossings == crate::order::layers_crossings(&d.graph, layers_view(&d.layers))
            },
    {
        let ghost n = g.vertices@.len();
        let (h, max_level) = match Self::prepare(g, assign) {
            Ok(p) => p,
            Err(e) => {
                return Err(e);
            },
        };
        let ghost lv1 = Seq::new(n, |v: int| h.vertices@[v].level as int);
        let layers = get_perm_levels(&h, max_level);
        let draws = random_draws(&layers);
        Self::arrange(h, max_level, &draws, Ghost(n), Ghost(lv1))
    }

    /// The finished character grid, `max_height` rows of `max_width` cells.
    pub fn render(&self, style: Style) -> (r: Vec<Vec<char>>)
        requires
            self.wf(),
        ensures
            self.painting(style, r@),
            canvas_ok(r@, self.max_height as int, self.max_width as int, style, self.graph.labels@),
            no_connectors(self.connections@) ==> forall|row: int, col: int|
                0 <= row < self.max_height && 0 <= col < self.max_width ==> #[trigger] r@[row]@[col] == picture(
                    style,
                    self.graph.vertices@,
                    self.graph.labels@,
                    self.graph.vertices@.len() as int,
                    row,
                    col,
                ),
    {
        render(&self.graph, &self.connections, &self.spacing, self.max_width, self.max_height, style)
    }
}

/// The grid row by row, each row followed by a line feed.
pub open spec fn text_of(rows: Seq<Vec<char>>) -> Seq<char>
    decreases rows.len(),
{
    if rows.len() == 0 {
        seq![]
    } else {
        text_of(rows.drop_last()) + rows.last()@ + seq!['\n']
    }
}

/// Serialises a grid row-major, a line feed after each row.
pub fn grid_text(rows: &Vec<Vec<char>>) -> (r: String)
    ensures
        r@ == text_of(rows@),
{
    let mut out = String::new();
    let mut k: usize = 0;
    while k < rows.len()
        invariant
            k <= rows@.len(),
            out@ == text_of(rows@.take(k as int)),
        decreases rows@.len() - k,
    {
        let ghost base = out@;
        let mut j: usize = 0;
        while j < rows[k].len()
            invariant
                k < rows@.len(),
                j <= rows@[k as int]@.len(),
                out@ == base + rows@[k as int]@.take(j as int),
            decreases rows@[k as int]@.len() - j,
        {
            push_char(&mut out, rows[k][j]);
            j = j + 1;
            assert(out@ =~= base + rows@[k as int]@.take(j as int));
        }
        push_char(&mut out, '\n');
        proof {
            assert(rows@.take(k + 1).drop_last() =~= rows@.take(k as int));
            assert(rows@[k as int]@.take(j as int) =~= rows@[k as int]@);
        }
        k = k + 1;
    }
    assert(rows@.take(k as int) =~= rows@);
    out
}

impl DagGraph {
    /// `buf` is a painting of the diagram: `max_height` rows of `max_width`
    /// allowed characters, exactly the painted boxes when there is no
    /// connector.
    pub open spec fn painting(&self, style: Style, buf: Seq<Vec<char>>) -> bool {
        &&& canvas_ok(buf, self.max_height as int, self.max_width as int, style, self.graph.labels@)
        &&& grid(buf) == drawing(
            style,
            self.graph.vertices@,
            self.graph.labels@,
            self.connections@,
            self.spacing@,
            self.max_height as int,
            self.max_width as int,
        )
        &&& no_connectors(self.connections@) ==> forall|row: int, col: int|
            0 <= row < self.max_height && 0 <= col < self.max_width ==> #[trigger] buf[row]@[col] == picture(
                style,
                self.graph.vertices@,
                self.graph.labels@,
                self.graph.vertices@.len() as int,
                row,
                col,
            )
    }

    /// The diagram as text: `max_height` lines of `max_width` characters.
    pub fn to_text(&self, style: Style) -> (r: String)
        requires
            self.wf(),
        ensures
            exists|buf: Seq<Vec<char>>| self.painting(style, buf) && r@ == text_of(buf),
    {
        let buf = self.render(style);
        assert(self.painting(style, buf@));
        grid_text(&buf)
    }

    /// The diagram as UTF-8 bytes of `to_text`.
    pub fn write(&self, style: Style) -> (r: Vec<u8>)
        requires
            self.wf(),
        ensures
            exists|t: &str|
                r@ == t.spec_bytes() && exists|buf: Seq<Vec<char>>| self.painting(style, buf) && t@ == text_of(buf),
    {
        let t = self.to_text(style);
        let s = t.as_str();
        s.as_bytes_vec()
    }
}

/// Diagrams one after another, each followed by a blank line.
pub open spec fn joined(ds: Seq<Vec<u8>>) -> Seq<u8>
    decreases ds.len(),
{
    if ds.len() == 0 {
        seq![]
    } else {
        joined(ds.drop_last()) + ds.last()@ + seq![10u8]
    }
}

/// Concatenates rendered diagrams, a line feed after each.
pub fn write(diagrams: &Vec<Vec<u8>>) -> (r: Vec<u8>)
    ensures
        r@ == joined(diagrams@),
{
    let mut out: Vec<u8> = Vec::new();
    let mut k: usize = 0;
    while k < diagrams.len()
        invariant
            k <= diagrams@.len(),
            out@ == joined(diagrams@.take(k as int)),
        decreases diagrams@.len() - k,
    {
        let ghost base = out@;
        let mut j: usize = 0;
        while j < diagrams[k].len()
            invariant
                k < diagrams@.len(),
                j <= diagrams@[k as int]@.len(),
                out@ == base + diagrams@[k as int]@.take(j as int),
            decreases diagrams@[k as int]@.len() - j,
        {
            out.push(diagrams[k][j]);
            j = j + 1;
            assert(out@ =~= base + diagrams@[k as int]@.take(j as int));
        }
        out.push(10u8);
        proof {
            assert(diagrams@.take(k + 1).drop_last() =~= diagrams@.take(k as int));
            assert(diagrams@[k as int]@.take(j as int) =~= diagrams@[k as int]@);
        }
        k = k + 1;
    }
    assert(diagrams@.take(k as int) =~= diagrams@);
    out
}

} // verus!

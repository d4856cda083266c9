//! Straight and bent connectors between adjacent layers, lane rows and
//! the vertical compaction that makes room for them.

use vstd::prelude::*;
use crate::graph::{Edge, Graph, MAX_ITEMS, Vertex};
use crate::order::{layers_view, layers_wf};
use crate::place::MAX_COORD;

verus! {

/// Largest coordinate that routing may reach.
pub const ROUTE_LIMIT: usize = 0x7fff_ffff;

/// A connector between two adjacent layers.
#[derive(Clone, Copy, Debug, PartialEq, Eq)]
pub enum Connection {
    /// A vertical run in column `x`, starting on row `y` (the source box's
    /// bottom border), for edge number `edge`.
    Straight { x: usize, y: usize, dummy_from: bool, dummy_to: bool, edge: usize },
    /// A path down column `x_from`, along lane row `lane` (relative to the
    /// boundary's lanes) and down column `x_to`, for edge number `edge`.
    Bent { x_from: usize, x_to: usize, lane: i64, dummy_from: bool, dummy_to: bool, edge: usize },
}

/// Column where a straight connector can join two boxes, each given as
/// (left column, width, placeholder): a shared column of two placeholders;
/// a placeholder's column strictly inside the other box; or, for two real
/// boxes overlapping by enough to keep a two-column margin, the column
/// after the larger left border.
pub open spec fn overlap_spec(a: (usize, usize, bool), b: (usize, usize, bool)) -> Option<usize> {
    let (x1, w1, d1) = a;
    let (x2, w2, d2) = b;
    if d1 && d2 {
        if x1 == x2 {
            Some(x1)
        } else {
            None
        }
    } else if d1 {
        if x1 > x2 && x1 < x2 + w2 - 1 {
            Some(x1)
        } else {
            None
        }
    } else if d2 {
        if x2 > x1 && x2 < x1 + w1 - 1 {
            Some(x2)
        } else {
            None
        }
    } else if x1 + w1 - 1 < x2 + 2 || x2 + w2 - 1 < x1 + 2 {
        None
    } else {
        Some(((if x1 >= x2 { x1 } else { x2 }) + 1) as usize)
    }
}

pub fn overlap(a: (usize, usize, bool), b: (usize, usize, bool)) -> (r: Option<usize>)
    requires
        a.0 + a.1 <= ROUTE_LIMIT,
        b.0 + b.1 <= ROUTE_LIMIT,
    ensures
        r == overlap_spec(a, b),
{
    let (x1, w1, d1) = a;
    let (x2, w2, d2) = b;
    if d1 && d2 {
        if x1 == x2 {
            Some(x1)
        } else {
            None
        }
    } else if d1 {
        if x1 > x2 && x1 + 1 < x2 + w2 {
            Some(x1)
        } else {
            None
        }
    } else if d2 {
        if x2 > x1 && x2 + 1 < x1 + w1 {
            Some(x2)
        } else {
            None
        }
    } else if x1 + w1 < x2 + 3 || x2 + w2 < x1 + 3 {
        None
    } else {
        Some((if x1 >= x2 { x1 } else { x2 }) + 1)
    }
}

/// Some connector of `row` already leaves (`outgoing`) or arrives in
/// column `x`; a straight one counts either way.
pub open spec fn uses_column(row: Seq<Connection>, x: usize, outgoing: bool) -> bool {
    exists|k: int|
        0 <= k < row.len() && match #[trigger] row[k] {
            Connection::Straight { x: sx, .. } => sx == x,
            Connection::Bent { x_from, x_to, .. } => (outgoing && x_from == x) || (!outgoing
                && x_to == x),
        }
}

fn connections_contain_x(row: &Vec<Connection>, x: usize, outgoing: bool) -> (r: bool)
    ensures
        r == uses_column(row@, x, outgoing),
{
    let mut k: usize = 0;
    while k < row.len()
        invariant
            k <= row@.len(),
            forall|j: int|
                0 <= j < k ==> !match #[trigger] row@[j] {
                    Connection::Straight { x: sx, .. } => sx == x,
                    Connection::Bent { x_from, x_to, .. } => (outgoing && x_from == x) || (!outgoing
                        && x_to == x),
                },
        decreases row@.len() - k,
    {
        match row[k] {
            Connection::Straight { x: sx, .. } => {
                if sx == x {
                    return true;
                }
            },
            Connection::Bent { x_from, x_to, .. } => {
                if (outgoing && x_from == x) || (!outgoing && x_to == x) {
                    return true;
                }
            },
        }
        k = k + 1;
    }
    false
}

pub open spec fn lo_of(a: usize, b: usize) -> usize {
    if a < b {
        a
    } else {
        b
    }
}

pub open spec fn hi_of(a: usize, b: usize) -> usize {
    if a < b {
        b
    } else {
        a
    }
}

/// A new bent path from `x3` to `x4` on lane `y` clashes with bent path
/// `c`: their spans meet on the same lane, or one's end column is the
/// other's start on a lane on the wrong side.
pub open spec fn bent_clash(c: Connection, y: i64, x3: usize, x4: usize) -> bool {
    match c {
        Connection::Bent { x_from, x_to, lane, .. } => {
            let (a1, a2) = (lo_of(x_from, x_to), hi_of(x_from, x_to));
            let (b1, b2) = (lo_of(x3, x4), hi_of(x3, x4));
            (y == lane && !(a2 < b1 || b2 < a1)) || (a1 == x4 && y <= lane) || (a2 == x3 && y
                >= lane)
        },
        _ => false,
    }
}

fn bent_overlap(row: &Vec<Connection>, y: i64, x3: usize, x4: usize) -> (r: bool)
    ensures
        r == exists|k: int| 0 <= k < row@.len() && bent_clash(#[trigger] row@[k], y, x3, x4),
{
    let (b1, b2) = if x3 < x4 { (x3, x4) } else { (x4, x3) };
    let mut k: usize = 0;
    while k < row.len()
        invariant
            k <= row@.len(),
            b1 == lo_of(x3, x4),
            b2 == hi_of(x3, x4),
            forall|j: int| 0 <= j < k ==> !bent_clash(#[trigger] row@[j], y, x3, x4),
        decreases row@.len() - k,
    {
        if let Connection::Bent { x_from, x_to, lane, .. } = row[k] {
            let (a1, a2) = if x_from < x_to { (x_from, x_to) } else { (x_to, x_from) };
            if y == lane && !(a2 < b1 || b2 < a1) {
                return true;
            }
            if (a1 == x4 && y <= lane) || (a2 == x3 && y >= lane) {
                return true;
            }
        }
        k = k + 1;
    }
    false
}

/// Whether a new lane `y` would run into an existing bent path's vertical
/// leg: at the new path's start column from below (first) or at its end
/// column from above (second).
pub open spec fn vertical_clash(row: Seq<Connection>, y: i64, x3: usize, x4: usize) -> (bool, bool) {
    (
        exists|k: int|
            0 <= k < row.len() && match #[trigger] row[k] {
                Connection::Bent { x_from, x_to, lane, .. } => hi_of(x_from, x_to) == x3 && y > lane,
                _ => false,
            },
        exists|k: int|
            0 <= k < row.len() && match #[trigger] row[k] {
                Connection::Bent { x_from, x_to, lane, .. } => lo_of(x_from, x_to) == x4 && y < lane,
                _ => false,
            },
    )
}

fn vertical_overlap(row: &Vec<Connection>, y: i64, x3: usize, x4: usize) -> (r: (bool, bool))
    ensures
        r == vertical_clash(row@, y, x3, x4),
{
    let mut a = false;
    let mut b = false;
    let mut k: usize = 0;
    while k < row.len()
        invariant
            k <= row@.len(),
            a == exists|j: int|
                0 <= j < k && match #[trigger] row@[j] {
                    Connection::Bent { x_from, x_to, lane, .. } => hi_of(x_from, x_to) == x3 && y > lane,
                    _ => false,
                },
            b == exists|j: int|
                0 <= j < k && match #[trigger] row@[j] {
                    Connection::Bent { x_from, x_to, lane, .. } => lo_of(x_from, x_to) == x4 && y < lane,
                    _ => false,
                },
        decreases row@.len() - k,
    {
        if let Connection::Bent { x_from, x_to, lane, .. } = row[k] {
            let (a1, a2) = if x_from < x_to { (x_from, x_to) } else { (x_to, x_from) };
            if a1 == x4 && y < lane {
                b = true;
            }
            if a2 == x3 && y > lane {
                a = true;
            }
        }
        k = k + 1;
    }
    (a, b)
}

/// Columns of a connector lie left of `canvas` (or on it).
pub open spec fn conn_within(c: Connection, canvas: usize) -> bool {
    match c {
        Connection::Straight { x, y, .. } => x <= canvas && y <= MAX_COORD,
        Connection::Bent { x_from, x_to, .. } => x_from <= canvas && x_to <= canvas,
    }
}

/// The lane of a connector (zero for a straight one) and its kind.
pub open spec fn same_shape(a: Connection, b: Connection) -> bool {
    match (a, b) {
        (Connection::Straight { y: y1, edge: e1, .. }, Connection::Straight { y: y2, edge: e2, .. }) => y1 == y2 && e1 == e2,
        (Connection::Bent { lane: l1, edge: e1, .. }, Connection::Bent { lane: l2, edge: e2, .. }) => l1 == l2 && e1 == e2,
        _ => false,
    }
}

/// The number of the edge a connector draws.
pub open spec fn conn_edge(c: Connection) -> usize {
    match c {
        Connection::Straight { edge, .. } => edge,
        Connection::Bent { edge, .. } => edge,
    }
}

/// Connector `c` of boundary `k` draws an existing edge that leaves level
/// `k + 1`; it is straight exactly when that edge is routed, and a
/// straight one starts on the bottom row of the edge's source box.
pub open spec fn conn_ok(g: &Graph, k: int, c: Connection) -> bool {
    let e = conn_edge(c) as int;
    let s = g.vertices@[g.edges@[e].source as int];
    &&& 0 <= e < g.edges@.len()
    &&& s.level == k + 1
    &&& (c is Straight) == g.edges@[e].routed
    &&& (c matches Connection::Straight { y, .. } ==> y == s.y + s.height - 1)
}

pub open spec fn conns_ok(g: &Graph, ct: Seq<Vec<Connection>>) -> bool {
    forall|k: int, j: int| 0 <= k < ct.len() && 0 <= j < ct[k]@.len() ==> conn_ok(g, k, #[trigger] ct[k]@[j])
}

/// No two connectors draw the same edge.
pub open spec fn uniq(ct: Seq<Vec<Connection>>) -> bool {
    forall|k1: int, j1: int, k2: int, j2: int|
        0 <= k1 < ct.len() && 0 <= j1 < ct[k1]@.len() && 0 <= k2 < ct.len() && 0 <= j2 < ct[k2]@.len() && (k1, j1)
            != (k2, j2) ==> conn_edge(#[trigger] ct[k1]@[j1]) != conn_edge(#[trigger] ct[k2]@[j2])
}

/// Some connector draws edge `e`.
pub open spec fn covers(ct: Seq<Vec<Connection>>, e: int) -> bool {
    exists|k: int, j: int| 0 <= k < ct.len() && 0 <= j < ct[k]@.len() && conn_edge(#[trigger] ct[k]@[j]) == e
}

/// Routing state: boxes and connector columns all within `canvas`.
pub open spec fn route_inv(g: &Graph, ct: Seq<Vec<Connection>>, canvas: usize) -> bool {
    &&& g.wf()
    &&& canvas <= ROUTE_LIMIT
    &&& forall|v: int| 0 <= v < g.vertices@.len() ==> (#[trigger] g.vertices@[v]).x + g.vertices@[v].width <= canvas
    &&& forall|k: int, j: int| 0 <= k < ct.len() && 0 <= j < ct[k]@.len() ==> conn_within(#[trigger] ct[k]@[j], canvas)
}

/// Agreement of two vertex records on everything but column and width.
pub open spec fn keeps_rows(a: Vertex, b: Vertex) -> bool {
    a.level == b.level && a.is_dummy == b.is_dummy && a.height == b.height && a.y == b.y
}

fn shift_conn(c: Connection, t: usize) -> (r: Connection)
    requires
        conn_within(c, (ROUTE_LIMIT - 1) as usize),
    ensures
        same_shape(r, c),
        match (r, c) {
            (Connection::Straight { x: a, .. }, Connection::Straight { x: b, .. }) => a == if b >= t { b + 1 } else { b as int },
            (Connection::Bent { x_from: a1, x_to: a2, .. }, Connection::Bent { x_from: b1, x_to: b2, .. }) =>
                a1 == (if b1 >= t { b1 + 1 } else { b1 as int }) && a2 == (if b2 >= t { b2 + 1 } else { b2 as int }),
            _ => false,
        },
{
    match c {
        Connection::Straight { x, y, dummy_from, dummy_to, edge } => Connection::Straight {
            x: if x >= t { x + 1 } else { x },
            y,
            dummy_from,
            dummy_to,
            edge,
        },
        Connection::Bent { x_from, x_to, lane, dummy_from, dummy_to, edge } => Connection::Bent {
            x_from: if x_from >= t { x_from + 1 } else { x_from },
            x_to: if x_to >= t { x_to + 1 } else { x_to },
            lane,
            dummy_from,
            dummy_to,
            edge,
        },
    }
}

/// Opens a blank column at `t`: every box and connector column at or right
/// of `t` moves one to the right, and a box that spans `t` grows by one.
fn shift_right_one(g: &mut Graph, ct: &mut Vec<Vec<Connection>>, t: usize, Ghost(canvas): Ghost<usize>)
    requires
        route_inv(&*old(g), old(ct)@, canvas),
        canvas + 1 <= ROUTE_LIMIT,
    ensures
        route_inv(&*final(g), final(ct)@, (canvas + 1) as usize),
        final(g).edges@ == old(g).edges@,
        final(g).labels@ == old(g).labels@,
        final(g).vertices@.len() == old(g).vertices@.len(),
        forall|v: int| 0 <= v < final(g).vertices@.len() ==> keeps_rows(#[trigger] final(g).vertices@[v], old(g).vertices@[v]),
        forall|v: int| 0 <= v < final(g).vertices@.len() ==> (#[trigger] final(g).vertices@[v]).width >= old(g).vertices@[v].width,
        forall|v: int| 0 <= v < final(g).vertices@.len() && old(g).vertices@[v].width <= 1 ==> (#[trigger] final(g).vertices@[v]).width == old(g).vertices@[v].width,
        final(ct)@.len() == old(ct)@.len(),
        forall|k: int| 0 <= k < final(ct)@.len() ==> (#[trigger] final(ct)@[k])@.len() == old(ct)@[k]@.len(),
        forall|k: int, j: int| 0 <= k < final(ct)@.len() && 0 <= j < final(ct)@[k]@.len() ==> same_shape(#[trigger] final(ct)@[k]@[j], old(ct)@[k]@[j]),
{
    let ghost vs0 = g.vertices@;
    let mut v: usize = 0;
    while v < g.vertices.len()
        invariant
            g.wf(),
            g.edges@ == old(g).edges@,
            g.labels@ == old(g).labels@,
            vs0 == old(g).vertices@,
            g.vertices@.len() == vs0.len(),
            v <= vs0.len(),
            canvas + 1 <= ROUTE_LIMIT,
            forall|u: int| 0 <= u < vs0.len() ==> (#[trigger] vs0[u]).x + vs0[u].width <= canvas,
            forall|u: int| 0 <= u < vs0.len() ==> keeps_rows(#[trigger] g.vertices@[u], vs0[u]),
            forall|u: int| 0 <= u < vs0.len() ==> (#[trigger] g.vertices@[u]).width >= vs0[u].width,
            forall|u: int| 0 <= u < vs0.len() && vs0[u].width <= 1 ==> (#[trigger] g.vertices@[u]).width == vs0[u].width,
            forall|u: int| 0 <= u < vs0.len() ==> (#[trigger] g.vertices@[u]).x + g.vertices@[u].width <= canvas + 1,
            forall|u: int| v <= u < vs0.len() ==> #[trigger] g.vertices@[u] == vs0[u],
        decreases vs0.len() - v,
    {
        let mut a = g.vertices[v];
        if a.x >= t {
            a.x = a.x + 1;
        } else if a.x + a.width > t {
            a.width = a.width + 1;
        }
        g.vertices.set(v, a);
        v = v + 1;
    }
    let ghost ct0 = ct@;
    let mut k: usize = 0;
    while k < ct.len()
        invariant
            ct@.len() == ct0.len(),
            ct0 == old(ct)@,
            k <= ct0.len(),
            canvas + 1 <= ROUTE_LIMIT,
            forall|a: int, j: int| 0 <= a < ct0.len() && 0 <= j < ct0[a]@.len() ==> conn_within(#[trigger] ct0[a]@[j], canvas),
            forall|a: int| 0 <= a < ct0.len() ==> (#[trigger] ct@[a])@.len() == ct0[a]@.len(),
            forall|a: int, j: int| 0 <= a < ct0.len() && 0 <= j < ct@[a]@.len() ==> same_shape(#[trigger] ct@[a]@[j], ct0[a]@[j]),
            forall|a: int, j: int| 0 <= a < ct0.len() && 0 <= j < ct@[a]@.len() ==> conn_within(#[trigger] ct@[a]@[j], (canvas + 1) as usize),
            forall|a: int| k <= a < ct0.len() ==> #[trigger] ct@[a] == ct0[a],
        decreases ct0.len() - k,
    {
        let mut row: Vec<Connection> = Vec::new();
        let mut j: usize = 0;
        while j < ct[k].len()
            invariant
                ct@.len() == ct0.len(),
                k < ct0.len(),
                j <= ct@[k as int]@.len(),
                ct@[k as int]@ == ct0[k as int]@,
                row@.len() == j,
                canvas + 1 <= ROUTE_LIMIT,
                forall|i: int| 0 <= i < ct0[k as int]@.len() ==> conn_within(#[trigger] ct0[k as int]@[i], canvas),
                forall|i: int| 0 <= i < j ==> same_shape(#[trigger] row@[i], ct0[k as int]@[i]),
                forall|i: int| 0 <= i < j ==> conn_within(#[trigger] row@[i], (canvas + 1) as usize),
            decreases ct@[k as int]@.len() - j,
        {
            let c = ct[k][j];
            assert(conn_within(ct0[k as int]@[j as int], canvas));
            row.push(shift_conn(c, t));
            j = j + 1;
        }
        ct.set(k, row);
        k = k + 1;
    }
}

/// Every box lies below `MAX_COORD` in both directions, on a level.
pub open spec fn placed_boxes(vs: Seq<Vertex>) -> bool {
    forall|v: int|
        0 <= v < vs.len() ==> (#[trigger] vs[v]).x + vs[v].width <= MAX_COORD && vs[v].y + vs[v].height
            <= MAX_COORD && vs[v].level >= 1 && vs[v].height >= 1
}

/// Every box's rows lie below `MAX_COORD`, on a level.
pub open spec fn rows_placed(vs: Seq<Vertex>) -> bool {
    forall|v: int|
        0 <= v < vs.len() ==> (#[trigger] vs[v]).y + vs[v].height <= MAX_COORD && vs[v].level >= 1
}

pub open spec fn all_routed(es: Seq<Edge>) -> bool {
    forall|i: int| 0 <= i < es.len() ==> (#[trigger] es[i]).routed
}

pub open spec fn box_of(v: Vertex) -> (usize, usize, bool) {
    (v.x, v.width, v.is_dummy)
}

/// Step one: every edge whose end boxes overlap enough gets a straight
/// connector in the list of its source's boundary and is marked routed.
fn straight_pass(g: &mut Graph, nb: usize, width: usize) -> (ct: Vec<Vec<Connection>>)
    requires
        old(g).wf(),
        placed_boxes(old(g).vertices@),
        width <= MAX_COORD,
        forall|v: int| 0 <= v < old(g).vertices@.len() ==> (#[trigger] old(g).vertices@[v]).x + old(g).vertices@[v].width <= width,
        forall|e: int| 0 <= e < old(g).edges@.len() ==> old(g).vertices@[(#[trigger] old(g).edges@[e]).source as int].level <= nb,
    ensures
        conns_ok(&*final(g), ct@),
        uniq(ct@),
        forall|k: int, j: int| 0 <= k < ct@.len() && 0 <= j < ct@[k]@.len() ==> (#[trigger] ct@[k]@[j]) is Straight,
        forall|e: int|
            0 <= e < old(g).edges@.len() && overlap_spec(
                box_of(old(g).vertices@[(#[trigger] old(g).edges@[e]).source as int]),
                box_of(old(g).vertices@[old(g).edges@[e].target as int]),
            ) is Some ==> covers(ct@, e),
        final(g).wf(),
        final(g).vertices@ == old(g).vertices@,
        final(g).labels@ == old(g).labels@,
        final(g).edges@.len() == old(g).edges@.len(),
        forall|i: int| 0 <= i < final(g).edges@.len() ==> {
            let (a, b) = (#[trigger] final(g).edges@[i], old(g).edges@[i]);
            &&& a.source == b.source && a.target == b.target
            &&& a.routed == (b.routed || overlap_spec(
                box_of(old(g).vertices@[b.source as int]),
                box_of(old(g).vertices@[b.target as int]),
            ) is Some)
        },
        all_routed(old(g).edges@) ==> final(g).edges@ == old(g).edges@,
        ct@.len() == nb,
        route_inv(&*final(g), ct@, width),
{
    let mut ct: Vec<Vec<Connection>> = Vec::new();
    let mut k: usize = 0;
    while k < nb
        invariant
            k <= nb,
            ct@.len() == k,
            forall|a: int| 0 <= a < k ==> (#[trigger] ct@[a])@.len() == 0,
        decreases nb - k,
    {
        ct.push(Vec::new());
        k = k + 1;
    }
    let ghost es0 = g.edges@;
    let mut i: usize = 0;
    while i < g.edges.len()
        invariant
            g.wf(),
            placed_boxes(g.vertices@),
            width <= MAX_COORD,
            forall|v: int| 0 <= v < g.vertices@.len() ==> (#[trigger] g.vertices@[v]).x + g.vertices@[v].width <= width,
            g.vertices@ == old(g).vertices@,
            g.labels@ == old(g).labels@,
            es0 == old(g).edges@,
            g.edges@.len() == es0.len(),
            i <= es0.len(),
            ct@.len() == nb,
            forall|a: int, j: int| 0 <= a < ct@.len() && 0 <= j < ct@[a]@.len() ==> conn_within(#[trigger] ct@[a]@[j], width),
            forall|j: int| i <= j < es0.len() ==> #[trigger] g.edges@[j] == es0[j],
            forall|j: int| 0 <= j < i ==> {
                let (a, b) = (#[trigger] g.edges@[j], es0[j]);
                &&& a.source == b.source && a.target == b.target
                &&& a.routed == (b.routed || overlap_spec(
                    box_of(g.vertices@[b.source as int]),
                    box_of(g.vertices@[b.target as int]),
                ) is Some)
            },
            all_routed(es0) ==> g.edges@ == es0,
            forall|e: int| 0 <= e < es0.len() ==> g.vertices@[(#[trigger] es0[e]).source as int].level <= nb,
            conns_ok(&*g, ct@),
            uniq(ct@),
            forall|a: int, j: int| 0 <= a < ct@.len() && 0 <= j < ct@[a]@.len() ==> (#[trigger] ct@[a]@[j]) is Straight,
            forall|a: int, j: int| 0 <= a < ct@.len() && 0 <= j < ct@[a]@.len() ==> conn_edge(#[trigger] ct@[a]@[j]) < i,
            forall|e: int|
                0 <= e < i && overlap_spec(
                    box_of(g.vertices@[(#[trigger] es0[e]).source as int]),
                    box_of(g.vertices@[es0[e].target as int]),
                ) is Some ==> covers(ct@, e),
        decreases es0.len() - i,
    {
        let ghost ct0 = ct@;
        let ghost ge0 = g.edges@;
        let mut e = g.edges[i];
        let sv = g.vertices[e.source];
        let tv = g.vertices[e.target];
        if let Some(x) = overlap((sv.x, sv.width, sv.is_dummy), (tv.x, tv.width, tv.is_dummy)) {
            let lvl = sv.level;
            if lvl - 1 < nb {
                let mut row: Vec<Connection> = Vec::new();
                let mut j: usize = 0;
                while j < ct[lvl - 1].len()
                    invariant
                        lvl >= 1,
                        lvl - 1 < ct@.len(),
                        j <= ct@[lvl - 1]@.len(),
                        row@ == ct@[lvl - 1]@.take(j as int),
                    decreases ct@[lvl - 1]@.len() - j,
                {
                    row.push(ct[lvl - 1][j]);
                    j = j + 1;
                    assert(row@ =~= ct@[lvl - 1]@.take(j as int));
                }
                assert(row@ =~= ct@[lvl - 1]@);
                row.push(Connection::Straight {
                    x,
                    y: sv.y + sv.height - 1,
                    dummy_from: sv.is_dummy,
                    dummy_to: tv.is_dummy,
                    edge: i,
                });
                ct.set(lvl - 1, row);
            }
            let ghost was = e.routed;
            e.routed = true;
            g.edges.set(i, e);
            proof {
                if all_routed(es0) {
                    assert(es0[i as int].routed);
                    assert(g.edges@ =~= es0);
                }
                assert(es0[i as int].source == e.source);
                assert(lvl - 1 < nb);
                let kk = lvl - 1;
                assert forall|a: int, j: int| 0 <= a < ct@.len() && 0 <= j < ct@[a]@.len() implies conn_ok(&*g, a, #[trigger] ct@[a]@[j]) && conn_edge(ct@[a]@[j]) < i + 1 by {
                    if a == kk && j == ct0[a]@.len() {
                    } else {
                        assert(ct@[a]@[j] == ct0[a]@[j]);
                        assert(conn_ok(&*old(g), a, ct0[a]@[j]) || true);
                        let ee = conn_edge(ct0[a]@[j]) as int;
                        assert(g.edges@[ee] == ge0[ee]);
                    }
                }
                assert forall|k1: int, j1: int, k2: int, j2: int|
                    0 <= k1 < ct@.len() && 0 <= j1 < ct@[k1]@.len() && 0 <= k2 < ct@.len() && 0 <= j2 < ct@[k2]@.len() && (k1, j1)
                        != (k2, j2) implies conn_edge(#[trigger] ct@[k1]@[j1]) != conn_edge(#[trigger] ct@[k2]@[j2]) by {
                    let new1 = k1 == kk && j1 == ct0[k1]@.len();
                    let new2 = k2 == kk && j2 == ct0[k2]@.len();
                    if !new1 {
                        assert(ct@[k1]@[j1] == ct0[k1]@[j1]);
                    }
                    if !new2 {
                        assert(ct@[k2]@[j2] == ct0[k2]@[j2]);
                    }
                }
                assert forall|a: int, j: int| 0 <= a < ct@.len() && 0 <= j < ct@[a]@.len() implies (#[trigger] ct@[a]@[j]) is Straight by {
                    if !(a == kk && j == ct0[a]@.len()) {
                        assert(ct@[a]@[j] == ct0[a]@[j]);
                    }
                }
                assert forall|ee: int|
                    0 <= ee < i + 1 && overlap_spec(
                        box_of(g.vertices@[(#[trigger] es0[ee]).source as int]),
                        box_of(g.vertices@[es0[ee].target as int]),
                    ) is Some implies covers(ct@, ee) by {
                    if ee < i {
                        let (a, j) = choose|a: int, j: int| 0 <= a < ct0.len() && 0 <= j < ct0[a]@.len() && conn_edge(#[trigger] ct0[a]@[j]) == ee;
                        assert(ct@[a]@[j] == ct0[a]@[j]);
                    } else {
                        assert(conn_edge(ct@[kk as int]@[ct0[kk as int]@.len() as int]) == ee);
                    }
                }
            }
        } else {
            proof {
                assert forall|ee: int|
                    0 <= ee < i + 1 && overlap_spec(
                        box_of(g.vertices@[(#[trigger] es0[ee]).source as int]),
                        box_of(g.vertices@[es0[ee].target as int]),
                    ) is Some implies covers(ct@, ee) by {
                    if ee == i {
                        assert(es0[ee] == e);
                    }
                }
            }
        }
        i = i + 1;
    }
    ct
}

/// First offset from `start` on, below `limit`, whose column `base + off`
/// no connector of `row` uses in the given direction; `limit` when all are
/// taken (or `start` when it is not below `limit`).
fn free_offset(row: &Vec<Connection>, base: usize, start: usize, limit: usize, outgoing: bool) -> (r: usize)
    requires
        base + limit <= ROUTE_LIMIT,
    ensures
        start <= limit ==> start <= r <= limit,
        start > limit ==> r == start,
        r < limit ==> !uses_column(row@, (base + r) as usize, outgoing),
        forall|o: int| start <= o < r ==> #[trigger] uses_column(row@, (base + o) as usize, outgoing),
{
    let mut off = start;
    while off < limit && connections_contain_x(row, base + off, outgoing)
        invariant
            base + limit <= ROUTE_LIMIT,
            start <= off,
            start <= limit ==> off <= limit,
            start > limit ==> off == start,
            forall|o: int| start <= o < off ==> #[trigger] uses_column(row@, (base + o) as usize, outgoing),
        decreases limit - off,
    {
        off = off + 1;
    }
    off
}

/// Unrouted edges leaving `c`, ordered by their target's column (ties in
/// edge order).
fn children_by_x(g: &Graph, c: usize) -> (r: Vec<usize>)
    requires
        g.wf(),
    ensures
        forall|k: int| 0 <= k < r@.len() ==> (#[trigger] r@[k]) < g.edges@.len() && g.edges@[r@[k] as int].source
            == c && !g.edges@[r@[k] as int].routed,
        all_routed(g.edges@) ==> r@.len() == 0,
        r@.len() <= g.edges@.len(),
        forall|i: int| 0 <= i < g.edges@.len() && (#[trigger] g.edges@[i]).source == c && !g.edges@[i].routed ==> r@.contains(i as usize),
        r@.no_duplicates(),
{
    let mut r: Vec<usize> = Vec::new();
    let mut i: usize = 0;
    while i < g.edges.len()
        invariant
            g.wf(),
            i <= g.edges@.len(),
            r@.len() <= i,
            forall|k: int| 0 <= k < r@.len() ==> (#[trigger] r@[k]) < g.edges@.len() && g.edges@[r@[k] as int].source
                == c && !g.edges@[r@[k] as int].routed,
            all_routed(g.edges@) ==> r@.len() == 0,
            forall|j: int| 0 <= j < i && (#[trigger] g.edges@[j]).source == c && !g.edges@[j].routed ==> r@.contains(j as usize),
            r@.no_duplicates(),
            forall|k: int| 0 <= k < r@.len() ==> (#[trigger] r@[k]) < i,
        decreases g.edges@.len() - i,
    {
        let e = g.edges[i];
        if e.source == c && !e.routed {
            let x = g.vertices[e.target].x;
            let mut p: usize = r.len();
            while p > 0 && g.vertices[g.edges[r[p - 1]].target].x > x
                invariant
                    g.wf(),
                    p <= r@.len(),
                    forall|k: int| 0 <= k < r@.len() ==> (#[trigger] r@[k]) < g.edges@.len(),
                decreases p,
            {
                p = p - 1;
            }
            let ghost o = r@;
            r.insert(p, i);
            proof {
                o.insert_ensures(p as int, i);
                assert forall|k: int| 0 <= k < r@.len() implies (#[trigger] r@[k]) < g.edges@.len() && g.edges@[r@[k] as int].source
                    == c && !g.edges@[r@[k] as int].routed by {
                    if k < p {
                        assert(r@[k] == o[k]);
                    } else if k > p {
                        assert(r@[k] == o[k - 1]);
                    }
                }
                assert forall|k: int| 0 <= k < r@.len() implies (#[trigger] r@[k]) < i + 1 by {
                    if k < p {
                        assert(r@[k] == o[k]);
                    } else if k > p {
                        assert(r@[k] == o[k - 1]);
                    }
                }
                assert forall|a: int, b: int| 0 <= a < r@.len() && 0 <= b < r@.len() && a != b implies r@[a] != r@[b] by {
                    if a != p && b != p {
                        let a0 = if a < p { a } else { a - 1 };
                        let b0 = if b < p { b } else { b - 1 };
                        assert(r@[a] == o[a0] && r@[b] == o[b0]);
                    } else if a == p {
                        let b0 = if b < p { b } else { b - 1 };
                        assert(r@[b] == o[b0]);
                    } else {
                        let a0 = if a < p { a } else { a - 1 };
                        assert(r@[a] == o[a0]);
                    }
                }
                assert forall|j: int| 0 <= j < i + 1 && (#[trigger] g.edges@[j]).source == c && !g.edges@[j].routed implies r@.contains(j as usize) by {
                    if j < i {
                        let k = choose|k: int| 0 <= k < o.len() && o[k] == j as usize;
                        if k < p {
                            assert(r@[k] == j as usize);
                        } else {
                            assert(r@[k + 1] == j as usize);
                        }
                    } else {
                        assert(r@[p as int] == i);
                    }
                }
            }
        }
        i = i + 1;
    }
    r
}

/// Number of lane rows reserved over all boundaries.
pub open spec fn lane_total(sp: Seq<(i64, i64)>) -> int
    decreases sp.len(),
{
    if sp.len() == 0 {
        0
    } else {
        lane_total(sp.drop_last()) + (sp.last().1 - sp.last().0)
    }
}

pub open spec fn lanes_ok(sp: Seq<(i64, i64)>) -> bool {
    forall|k: int| 0 <= k < sp.len() ==> (#[trigger] sp[k]).0 <= 0 <= sp[k].1
}

/// Rows kept, columns and widths only grow, and connectors keep their kind
/// and rows; the list of boundary `idx` may grow.
pub open spec fn route_frame(g1: &Graph, ct1: Seq<Vec<Connection>>, g0: &Graph, ct0: Seq<Vec<Connection>>) -> bool {
    &&& g1.edges@ == g0.edges@
    &&& g1.labels@ == g0.labels@
    &&& g1.vertices@.len() == g0.vertices@.len()
    &&& forall|v: int| 0 <= v < g1.vertices@.len() ==> keeps_rows(#[trigger] g1.vertices@[v], g0.vertices@[v])
    &&& forall|v: int| 0 <= v < g1.vertices@.len() ==> (#[trigger] g1.vertices@[v]).width >= g0.vertices@[v].width
    &&& forall|v: int| 0 <= v < g1.vertices@.len() && g0.vertices@[v].width <= 1 ==> (#[trigger] g1.vertices@[v]).width == g0.vertices@[v].width
    &&& ct1.len() == ct0.len()
    &&& forall|k: int| 0 <= k < ct1.len() ==> (#[trigger] ct1[k])@.len() >= ct0[k]@.len()
    &&& forall|k: int, j: int| 0 <= k < ct1.len() && 0 <= j < ct0[k]@.len() ==> same_shape(#[trigger] ct1[k]@[j], ct0[k]@[j])
}

proof fn lemma_route_frame_trans(g2: &Graph, ct2: Seq<Vec<Connection>>, g1: &Graph, ct1: Seq<Vec<Connection>>, g0: &Graph, ct0: Seq<Vec<Connection>>)
    requires
        route_frame(g2, ct2, g1, ct1),
        route_frame(g1, ct1, g0, ct0),
    ensures
        route_frame(g2, ct2, g0, ct0),
{
    assert forall|v: int| 0 <= v < g2.vertices@.len() implies keeps_rows(#[trigger] g2.vertices@[v], g0.vertices@[v]) by {
        assert(keeps_rows(g2.vertices@[v], g1.vertices@[v]));
        assert(keeps_rows(g1.vertices@[v], g0.vertices@[v]));
    }
    assert forall|v: int| 0 <= v < g2.vertices@.len() implies (#[trigger] g2.vertices@[v]).width >= g0.vertices@[v].width by {
        assert(g2.vertices@[v].width >= g1.vertices@[v].width);
    }
    assert forall|v: int| 0 <= v < g2.vertices@.len() && g0.vertices@[v].width <= 1 implies (#[trigger] g2.vertices@[v]).width == g0.vertices@[v].width by {
        assert(g1.vertices@[v].width == g0.vertices@[v].width);
        assert(g2.vertices@[v].width == g1.vertices@[v].width);
    }
    assert forall|k: int| 0 <= k < ct2.len() implies (#[trigger] ct2[k])@.len() >= ct0[k]@.len() by {
        assert(ct2[k]@.len() >= ct1[k]@.len());
    }
    assert forall|k: int, j: int| 0 <= k < ct2.len() && 0 <= j < ct0[k]@.len() implies same_shape(#[trigger] ct2[k]@[j], ct0[k]@[j]) by {
        assert(ct1[k]@.len() >= ct0[k]@.len());
        assert(same_shape(ct2[k]@[j], ct1[k]@[j]));
        assert(same_shape(ct1[k]@[j], ct0[k]@[j]));
    }
}

/// `ct` is `ct0` (up to connector positions) with one bent connector for
/// edge `ei` appended to boundary `idx`.
pub open spec fn pushed_one(ct: Seq<Vec<Connection>>, ct0: Seq<Vec<Connection>>, idx: int, ei: usize) -> bool {
    &&& ct.len() == ct0.len()
    &&& ct[idx]@.len() == ct0[idx]@.len() + 1
    &&& ct[idx]@.last() is Bent
    &&& conn_edge(ct[idx]@.last()) == ei
    &&& forall|k: int| 0 <= k < ct.len() && k != idx ==> (#[trigger] ct[k])@.len() == ct0[k]@.len()
}

proof fn lemma_push_uniq(ct: Seq<Vec<Connection>>, ct0: Seq<Vec<Connection>>, idx: int, ei: usize)
    requires
        0 <= idx < ct0.len(),
        pushed_one(ct, ct0, idx, ei),
        forall|k: int, j: int| 0 <= k < ct.len() && 0 <= j < ct0[k]@.len() ==> same_shape(#[trigger] ct[k]@[j], ct0[k]@[j]),
        uniq(ct0),
        !covers(ct0, ei as int),
    ensures
        uniq(ct),
{
    assert forall|k: int, j: int| 0 <= k < ct.len() && 0 <= j < ct[k]@.len() implies conn_edge(#[trigger] ct[k]@[j]) == if j < ct0[k]@.len() {
        conn_edge(ct0[k]@[j])
    } else {
        ei
    } by {
        if j < ct0[k]@.len() {
            assert(same_shape(ct[k]@[j], ct0[k]@[j]));
        } else {
            assert(k == idx);
            assert(ct[k]@[j] == ct[idx]@.last());
        }
    }
    assert forall|k1: int, j1: int, k2: int, j2: int|
        0 <= k1 < ct.len() && 0 <= j1 < ct[k1]@.len() && 0 <= k2 < ct.len() && 0 <= j2 < ct[k2]@.len() && (k1, j1)
            != (k2, j2) implies conn_edge(#[trigger] ct[k1]@[j1]) != conn_edge(#[trigger] ct[k2]@[j2]) by {
        if j1 < ct0[k1]@.len() && j2 < ct0[k2]@.len() {
            assert(conn_edge(ct0[k1]@[j1]) != conn_edge(ct0[k2]@[j2]));
        } else if j1 < ct0[k1]@.len() {
            assert(conn_edge(ct0[k1]@[j1]) != ei);
        } else if j2 < ct0[k2]@.len() {
            assert(conn_edge(ct0[k2]@[j2]) != ei);
        } else {
            assert(k1 == idx && k2 == idx);
        }
    }
}

/// Connectors that stay where they were keep drawing their edges.
proof fn lemma_frame_keeps(g1: &Graph, ct1: Seq<Vec<Connection>>, g0: &Graph, ct0: Seq<Vec<Connection>>)
    requires
        route_frame(g1, ct1, g0, ct0),
        g0.wf(),
        conns_ok(g0, ct0),
    ensures
        forall|k: int, j: int| 0 <= k < ct0.len() && 0 <= j < ct0[k]@.len() ==> conn_ok(g1, k, #[trigger] ct1[k]@[j]),
        forall|e: int| covers(ct0, e) ==> covers(ct1, e),
{
    assert forall|k: int, j: int| 0 <= k < ct0.len() && 0 <= j < ct0[k]@.len() implies conn_ok(g1, k, #[trigger] ct1[k]@[j]) by {
        assert(same_shape(ct1[k]@[j], ct0[k]@[j]));
        assert(conn_ok(g0, k, ct0[k]@[j]));
        let e = conn_edge(ct0[k]@[j]) as int;
        let sv = g0.edges@[e].source as int;
        assert(keeps_rows(g1.vertices@[sv], g0.vertices@[sv]));
    }
    assert forall|e: int| covers(ct0, e) implies covers(ct1, e) by {
        let (k, j) = choose|k: int, j: int| 0 <= k < ct0.len() && 0 <= j < ct0[k]@.len() && conn_edge(#[trigger] ct0[k]@[j]) == e;
        assert(same_shape(ct1[k]@[j], ct0[k]@[j]));
        assert(conn_edge(ct1[k]@[j]) == e);
    }
}

proof fn lemma_route_frame_refl(g: &Graph, ct: Seq<Vec<Connection>>)
    ensures
        route_frame(g, ct, g, ct),
{
    assert forall|k: int, j: int| 0 <= k < ct.len() && 0 <= j < ct[k]@.len() implies same_shape(#[trigger] ct[k]@[j], ct[k]@[j]) by {
        match ct[k]@[j] {
            Connection::Straight { .. } => {},
            Connection::Bent { .. } => {},
        }
    }
}

fn push_conn(ct: &mut Vec<Vec<Connection>>, idx: usize, c: Connection)
    requires
        idx < old(ct)@.len(),
    ensures
        final(ct)@.len() == old(ct)@.len(),
        final(ct)@[idx as int]@ == old(ct)@[idx as int]@.push(c),
        forall|k: int| 0 <= k < final(ct)@.len() && k != idx ==> #[trigger] final(ct)@[k] == old(ct)@[k],
{
    let mut row: Vec<Connection> = Vec::new();
    let mut j: usize = 0;
    while j < ct[idx].len()
        invariant
            idx < ct@.len(),
            j <= ct@[idx as int]@.len(),
            row@ == ct@[idx as int]@.take(j as int),
        decreases ct@[idx as int]@.len() - j,
    {
        row.push(ct[idx][j]);
        j = j + 1;
        assert(row@ =~= ct@[idx as int]@.take(j as int));
    }
    assert(row@ =~= ct@[idx as int]@);
    row.push(c);
    ct.set(idx, row);
}

proof fn lemma_push_frame(g: &Graph, ct1: Seq<Vec<Connection>>, ct0: Seq<Vec<Connection>>, idx: int, c: Connection, canvas: usize)
    requires
        route_inv(g, ct0, canvas),
        0 <= idx < ct0.len(),
        ct1.len() == ct0.len(),
        ct1[idx]@ == ct0[idx]@.push(c),
        forall|k: int| 0 <= k < ct1.len() && k != idx ==> #[trigger] ct1[k] == ct0[k],
        conn_within(c, canvas),
    ensures
        route_inv(g, ct1, canvas),
        route_frame(g, ct1, g, ct0),
{
    lemma_route_frame_refl(g, ct0);
    assert forall|k: int, j: int| 0 <= k < ct1.len() && 0 <= j < ct1[k]@.len() implies conn_within(#[trigger] ct1[k]@[j], canvas) by {
        if k == idx && j < ct0[k]@.len() {
            assert(ct1[k]@[j] == ct0[k]@[j]);
        }
    }
    assert forall|k: int, j: int| 0 <= k < ct1.len() && 0 <= j < ct0[k]@.len() implies same_shape(#[trigger] ct1[k]@[j], ct0[k]@[j]) by {
        assert(ct1[k]@[j] == ct0[k]@[j]);
        assert(same_shape(ct0[k]@[j], ct0[k]@[j]));
    }
}

/// Step two for one edge from `c` to `t` across boundary `idx`: picks the
/// departure column (scanning on from `*out_offset`) and the arrival
/// column, reuses the first lane row where the bent path clashes with no
/// other (searched from the top for a left-to-right bend, from the bottom
/// otherwise), else opens a new lane above or below and, where the new
/// lane would meet an existing leg, opens a blank column first.
fn route_edge(
    g: &mut Graph,
    ct: &mut Vec<Vec<Connection>>,
    idx: usize,
    lane: &mut (i64, i64),
    lanes: &mut usize,
    canvas: &mut usize,
    c: usize,
    t: usize,
    ei: usize,
    out_offset: &mut usize,
)
    requires
        route_inv(&*old(g), old(ct)@, *old(canvas)),
        idx < old(ct)@.len(),
        c < old(g).vertices@.len(),
        t < old(g).vertices@.len(),
        old(lane).0 <= 0 <= old(lane).1,
        *old(lanes) <= MAX_ITEMS,
        old(lane).1 - old(lane).0 <= *old(lanes),
        ei < old(g).edges@.len(),
        old(g).edges@[ei as int].source == c,
        !old(g).edges@[ei as int].routed,
        old(g).vertices@[c as int].level == idx + 1,
        conns_ok(&*old(g), old(ct)@),
        uniq(old(ct)@),
        !covers(old(ct)@, ei as int),
    ensures
        conns_ok(&*final(g), final(ct)@),
        uniq(final(ct)@),
        pushed_one(final(ct)@, old(ct)@, idx as int, ei),
        route_inv(&*final(g), final(ct)@, *final(canvas)),
        route_frame(&*final(g), final(ct)@, &*old(g), old(ct)@),
        *final(canvas) >= *old(canvas),
        final(lane).0 <= 0 <= final(lane).1,
        final(lane).1 - final(lane).0 - (old(lane).1 - old(lane).0) == *final(lanes) - *old(lanes),
        *old(lanes) <= *final(lanes) <= MAX_ITEMS,
{
    let ghost g0 = *g;
    let ghost ct0 = ct@;
    let cv = g.vertices[c];
    let tv = g.vertices[t];
    let mut x_from: usize = if cv.is_dummy {
        cv.x
    } else {
        let start = if *out_offset > cv.width { cv.width } else { *out_offset };
        let o = free_offset(&ct[idx], cv.x, start, cv.width, true);
        *out_offset = o;
        cv.x + o
    };
    let mut x_to: usize = if tv.is_dummy || tv.width == 0 {
        tv.x
    } else {
        let start: usize = if tv.width > 1 { 1 } else { 0 };
        let o = free_offset(&ct[idx], tv.x, start, tv.width - 1, false);
        tv.x + o
    };
    let (lo, hi) = *lane;
    let mut found = false;
    if x_to > x_from {
        let mut s = lo;
        while s < hi && !found
            invariant
                route_inv(&*g, ct@, *canvas),
                route_frame(&*g, ct@, &g0, ct0),
                *canvas == *old(canvas),
                g0 == *old(g),
                ct0 == old(ct)@,
                idx < ct@.len(),
                x_from <= *canvas,
                x_to <= *canvas,
                lo <= s,
                !found ==> ct@ == ct0,
                found ==> pushed_one(ct@, ct0, idx as int, ei),
            decreases hi - s,
        {
            if !bent_overlap(&ct[idx], s, x_from, x_to) {
                let ghost ct1 = ct@;
                let b = Connection::Bent { x_from, x_to, lane: s, dummy_from: cv.is_dummy, dummy_to: tv.is_dummy, edge: ei };
                push_conn(ct, idx, b);
                proof {
                    lemma_push_frame(&*g, ct@, ct1, idx as int, b, *canvas);
                    lemma_route_frame_trans(&*g, ct@, &*g, ct1, &g0, ct0);
                    assert(ct@[idx as int]@.last() == b);
                }
                found = true;
            }
            s = s + 1;
        }
    } else {
        let mut s = hi;
        while s > lo && !found
            invariant
                route_inv(&*g, ct@, *canvas),
                route_frame(&*g, ct@, &g0, ct0),
                *canvas == *old(canvas),
                g0 == *old(g),
                ct0 == old(ct)@,
                idx < ct@.len(),
                x_from <= *canvas,
                x_to <= *canvas,
                s <= hi,
                !found ==> ct@ == ct0,
                found ==> pushed_one(ct@, ct0, idx as int, ei),
            decreases s - lo,
        {
            s = s - 1;
            if !bent_overlap(&ct[idx], s, x_from, x_to) {
                let ghost ct1 = ct@;
                let b = Connection::Bent { x_from, x_to, lane: s, dummy_from: cv.is_dummy, dummy_to: tv.is_dummy, edge: ei };
                push_conn(ct, idx, b);
                proof {
                    lemma_push_frame(&*g, ct@, ct1, idx as int, b, *canvas);
                    lemma_route_frame_trans(&*g, ct@, &*g, ct1, &g0, ct0);
                    assert(ct@[idx as int]@.last() == b);
                }
                found = true;
            }
        }
    }
    if !found {
        let mut y: i64 = lane.0;
        if *lanes < MAX_ITEMS {
            if x_to > x_from {
                lane.0 = lane.0 - 1;
                y = lane.0;
            } else {
                y = lane.1;
                lane.1 = lane.1 + 1;
            }
            *lanes = *lanes + 1;
            let (va, vb) = vertical_overlap(&ct[idx], y, x_from, x_to);
            if va && *canvas < ROUTE_LIMIT {
                let ghost g1 = *g;
                let ghost ct1 = ct@;
                let th = x_from + 1;
                shift_right_one(g, ct, th, Ghost(*canvas));
                proof {
                    lemma_route_frame_trans(&*g, ct@, &g1, ct1, &g0, ct0);
                }
                x_from = x_from + 1;
                if x_to >= th {
                    x_to = x_to + 1;
                }
                *canvas = *canvas + 1;
            }
            if vb && *canvas < ROUTE_LIMIT {
                let ghost g1 = *g;
                let ghost ct1 = ct@;
                let th = x_to + 1;
                shift_right_one(g, ct, th, Ghost(*canvas));
                proof {
                    lemma_route_frame_trans(&*g, ct@, &g1, ct1, &g0, ct0);
                }
                x_to = x_to + 1;
                if x_from >= th {
                    x_from = x_from + 1;
                }
                *canvas = *canvas + 1;
            }
        }
        let ghost ct1 = ct@;
        let b = Connection::Bent { x_from, x_to, lane: y, dummy_from: cv.is_dummy, dummy_to: tv.is_dummy, edge: ei };
        push_conn(ct, idx, b);
        proof {
            lemma_push_frame(&*g, ct@, ct1, idx as int, b, *canvas);
            lemma_route_frame_trans(&*g, ct@, &*g, ct1, &g0, ct0);
            assert(ct@[idx as int]@.last() == b);
            assert(pushed_one(ct@, ct0, idx as int, ei));
        }
    }
    proof {
        lemma_frame_keeps(&*g, ct@, &g0, ct0);
        assert forall|k: int, j: int| 0 <= k < ct@.len() && 0 <= j < ct@[k]@.len() implies conn_ok(&*g, k, #[trigger] ct@[k]@[j]) by {
            if !(j < ct0[k]@.len()) {
                assert(k == idx);
                assert(ct@[k]@[j] == ct@[idx as int]@.last());
                assert(keeps_rows(g.vertices@[c as int], g0.vertices@[c as int]));
            }
        }
        lemma_push_uniq(ct@, ct0, idx as int, ei);
    }
}

/// Edge `e` is unrouted and its source lies on a level above `idx + 1`,
/// or on level `idx + 1` among the first `p` vertices of that layer.
pub open spec fn reached(g: &Graph, lay: Seq<Seq<usize>>, e: int, idx: int, p: int) -> bool {
    let s = g.edges@[e].source;
    &&& !g.edges@[e].routed
    &&& (g.vertices@[s as int].level - 1 < idx || (g.vertices@[s as int].level - 1 == idx && lay[idx].take(p).contains(s)))
}

/// Every connector draws a routed edge, an edge already reached, or one of
/// `extra`.
pub open spec fn drawn_reached(g: &Graph, lay: Seq<Seq<usize>>, ct: Seq<Vec<Connection>>, idx: int, p: int, extra: Seq<usize>) -> bool {
    forall|k: int, j: int|
        0 <= k < ct.len() && 0 <= j < ct[k]@.len() ==> {
            let e = conn_edge(#[trigger] ct[k]@[j]);
            g.edges@[e as int].routed || reached(g, lay, e as int, idx, p) || extra.contains(e)
        }
}

/// Step two: routes every unrouted edge as a bent connector, boundary by
/// boundary, source by source in layer order, each source's edges by their
/// target's column. A boundary with any such edge reserves one lane row to
/// begin with. Returns each boundary's lane range.
fn route_bent(g: &mut Graph, layers: &Vec<Vec<usize>>, ct: &mut Vec<Vec<Connection>>, canvas: &mut usize) -> (sp: Vec<(i64, i64)>)
    requires
        route_inv(&*old(g), old(ct)@, *old(canvas)),
        layers_wf(&*old(g), layers_view(layers)),
        old(ct)@.len() <= layers@.len(),
        conns_ok(&*old(g), old(ct)@),
        uniq(old(ct)@),
        forall|k: int, j: int| 0 <= k < old(ct)@.len() && 0 <= j < old(ct)@[k]@.len() ==> old(g).edges@[conn_edge(#[trigger] old(ct)@[k]@[j]) as int].routed,
        forall|e: int| 0 <= e < old(g).edges@.len() ==> old(g).vertices@[(#[trigger] old(g).edges@[e]).source as int].level <= old(ct)@.len(),
    ensures
        conns_ok(&*final(g), final(ct)@),
        uniq(final(ct)@),
        forall|e: int| 0 <= e < old(g).edges@.len() && !(#[trigger] old(g).edges@[e]).routed ==> covers(final(ct)@, e),
        forall|e: int| covers(old(ct)@, e) ==> covers(final(ct)@, e),
        route_inv(&*final(g), final(ct)@, *final(canvas)),
        route_frame(&*final(g), final(ct)@, &*old(g), old(ct)@),
        *final(canvas) >= *old(canvas),
        sp@.len() == old(ct)@.len(),
        lanes_ok(sp@),
        0 <= lane_total(sp@) <= MAX_ITEMS,
        all_routed(old(g).edges@) ==> {
            &&& final(g).vertices@ == old(g).vertices@
            &&& final(ct)@ == old(ct)@
            &&& *final(canvas) == *old(canvas)
            &&& forall|k: int| 0 <= k < sp@.len() ==> #[trigger] sp@[k] == (0i64, 0i64)
        },
{
    let ghost g0 = *g;
    let ghost ct0 = ct@;
    let ghost canvas0 = *canvas;
    let mut sp: Vec<(i64, i64)> = Vec::new();
    let mut lanes: usize = 0;
    let nb = ct.len();
    let mut idx: usize = 0;
    proof {
        lemma_route_frame_refl(&*g, ct@);
    }
    while idx < nb
        invariant
            route_inv(&*g, ct@, *canvas),
            route_frame(&*g, ct@, &g0, ct0),
            g0 == *old(g),
            ct0 == old(ct)@,
            canvas0 == *old(canvas),
            *canvas >= canvas0,
            nb == ct@.len(),
            nb <= layers@.len(),
            layers_wf(&g0, layers_view(layers)),
            conns_ok(&*g, ct@),
            forall|e: int| covers(ct0, e) ==> covers(ct@, e),
            forall|e: int| 0 <= e < g0.edges@.len() ==> g0.vertices@[(#[trigger] g0.edges@[e]).source as int].level <= nb,
            idx <= nb,
            forall|e: int| 0 <= e < g0.edges@.len() && #[trigger] reached(&g0, layers_view(layers), e, idx as int, 0) ==> covers(ct@, e),
            uniq(ct@),
            drawn_reached(&g0, layers_view(layers), ct@, idx as int, 0, seq![]),
            sp@.len() == idx,
            lanes_ok(sp@),
            lanes == lane_total(sp@),
            lanes <= MAX_ITEMS,
            all_routed(g0.edges@) ==> {
                &&& g.vertices@ == g0.vertices@
                &&& ct@ == ct0
                &&& *canvas == canvas0
                &&& lanes == 0
                &&& forall|k: int| 0 <= k < sp@.len() ==> #[trigger] sp@[k] == (0i64, 0i64)
            },
        decreases nb - idx,
    {
        let mut lane: (i64, i64) = (0, 0);
        let mut p: usize = 0;
        while p < layers[idx].len()
            invariant
                route_inv(&*g, ct@, *canvas),
                route_frame(&*g, ct@, &g0, ct0),
                g0 == *old(g),
                ct0 == old(ct)@,
                canvas0 == *old(canvas),
                *canvas >= canvas0,
                nb == ct@.len(),
                nb <= layers@.len(),
                layers_wf(&g0, layers_view(layers)),
                conns_ok(&*g, ct@),
                forall|e: int| covers(ct0, e) ==> covers(ct@, e),
                forall|e: int| 0 <= e < g0.edges@.len() ==> g0.vertices@[(#[trigger] g0.edges@[e]).source as int].level <= nb,
                idx < nb,
                p <= layers@[idx as int]@.len(),
                forall|e: int| 0 <= e < g0.edges@.len() && #[trigger] reached(&g0, layers_view(layers), e, idx as int, p as int) ==> covers(ct@, e),
                uniq(ct@),
                drawn_reached(&g0, layers_view(layers), ct@, idx as int, p as int, seq![]),
                sp@.len() == idx,
                lanes_ok(sp@),
                lane.0 <= 0 <= lane.1,
                lanes == lane_total(sp@) + (lane.1 - lane.0),
                lanes <= MAX_ITEMS,
                all_routed(g0.edges@) ==> {
                    &&& g.vertices@ == g0.vertices@
                    &&& ct@ == ct0
                    &&& *canvas == canvas0
                    &&& lanes == 0
                    &&& lane == (0i64, 0i64)
                    &&& forall|k: int| 0 <= k < sp@.len() ==> #[trigger] sp@[k] == (0i64, 0i64)
                },
            decreases layers@[idx as int]@.len() - p,
        {
            let c = layers[idx][p];
            proof {
                assert(layers_view(layers)[idx as int][p as int] == c);
            }
            let childs = children_by_x(g, c);
            assert(g.edges@ == g0.edges@);
            proof {
                assert(g0.vertices@[c as int].level == idx + 1);
            }
            assert(all_routed(g0.edges@) ==> childs@.len() == 0);
            if lane.0 == 0 && lane.1 == 0 && childs.len() > 0 && lanes < MAX_ITEMS {
                lane = (0, 1);
                lanes = lanes + 1;
            }
            let mut out_offset: usize = 1;
            let mut q: usize = 0;
            proof {
                lemma_lane_total_nonneg(sp@);
            }
            let ghost gv1 = g.vertices@;
            let ghost ctq = ct@;
            let ghost cq = *canvas;
            let ghost lq = lanes;
            let ghost laneq = lane;
            proof {
                assert(childs@.take(0) =~= Seq::<usize>::empty());
                assert(layers_view(layers)[idx as int].no_duplicates());
            }
            while q < childs.len()
                invariant
                    q == 0 ==> g.vertices@ == gv1 && ct@ == ctq && *canvas == cq && lanes == lq && lane == laneq,
                    q <= childs@.len(),
                    route_inv(&*g, ct@, *canvas),
                    route_frame(&*g, ct@, &g0, ct0),
                    g0 == *old(g),
                    ct0 == old(ct)@,
                    *canvas >= canvas0,
                    nb == ct@.len(),
                    idx < nb,
                    c < g.vertices@.len(),
                    lane.0 <= 0 <= lane.1,
                    lanes == lane_total(sp@) + (lane.1 - lane.0),
                    lanes <= MAX_ITEMS,
                    lane_total(sp@) >= 0,
                    forall|k: int| 0 <= k < childs@.len() ==> (#[trigger] childs@[k]) < g.edges@.len(),
                    conns_ok(&*g, ct@),
                    forall|e: int| covers(ct0, e) ==> covers(ct@, e),
                    g.edges@ == g0.edges@,
                    forall|k: int| 0 <= k < childs@.len() ==> g0.edges@[(#[trigger] childs@[k]) as int].source == c && !g0.edges@[childs@[k] as int].routed,
                    g0.vertices@[c as int].level == idx + 1,
                    c == layers_view(layers)[idx as int][p as int],
                    p < layers@[idx as int]@.len(),
                    forall|e: int| 0 <= e < g0.edges@.len() && (#[trigger] reached(&g0, layers_view(layers), e, idx as int, p as int)) ==> covers(ct@, e),
                    forall|k: int| 0 <= k < q ==> covers(ct@, #[trigger] childs@[k] as int),
                    uniq(ct@),
                    childs@.no_duplicates(),
                    nb <= layers@.len(),
                    layers_view(layers)[idx as int].no_duplicates(),
                    drawn_reached(&g0, layers_view(layers), ct@, idx as int, p as int, childs@.take(q as int)),
                decreases childs@.len() - q,
            {
                let ei = childs[q];
                let t = g.edges[ei].target;
                let ghost g1 = *g;
                let ghost ct1 = ct@;
                proof {
                    assert(keeps_rows(g.vertices@[c as int], g0.vertices@[c as int]));
                    let lay = layers_view(layers);
                    assert(!lay[idx as int].take(p as int).contains(c)) by {
                        if lay[idx as int].take(p as int).contains(c) {
                            let w = choose|w: int| 0 <= w < p && lay[idx as int].take(p as int)[w] == c;
                            assert(lay[idx as int][w] == lay[idx as int][p as int]);
                        }
                    }
                    assert(!childs@.take(q as int).contains(ei)) by {
                        if childs@.take(q as int).contains(ei) {
                            let w = choose|w: int| 0 <= w < q && childs@.take(q as int)[w] == ei;
                            assert(childs@[w] == childs@[q as int]);
                        }
                    }
                    assert(!covers(ct@, ei as int)) by {
                        if covers(ct@, ei as int) {
                            let (k, j) = choose|k: int, j: int| 0 <= k < ct@.len() && 0 <= j < ct@[k]@.len() && conn_edge(#[trigger] ct@[k]@[j]) == ei;
                            assert(!reached(&g0, lay, ei as int, idx as int, p as int));
                        }
                    }
                }
                route_edge(g, ct, idx, &mut lane, &mut lanes, canvas, c, t, ei, &mut out_offset);
                proof {
                    lemma_route_frame_trans(&*g, ct@, &g1, ct1, &g0, ct0);
                    lemma_frame_keeps(&*g, ct@, &g1, ct1);
                    let jl = ct@[idx as int]@.len() - 1;
                    assert(conn_edge(ct@[idx as int]@[jl]) == ei);
                    assert(covers(ct@, ei as int));
                    let lay = layers_view(layers);
                    assert(childs@.take(q + 1) =~= childs@.take(q as int).push(ei));
                    assert forall|k: int, j: int| 0 <= k < ct@.len() && 0 <= j < ct@[k]@.len() implies {
                        let e = conn_edge(#[trigger] ct@[k]@[j]);
                        g0.edges@[e as int].routed || reached(&g0, lay, e as int, idx as int, p as int) || childs@.take(q + 1).contains(e)
                    } by {
                        if j < ct1[k]@.len() {
                            assert(same_shape(ct@[k]@[j], ct1[k]@[j]));
                            let e = conn_edge(ct1[k]@[j]);
                            if childs@.take(q as int).contains(e) {
                                let w = choose|w: int| 0 <= w < q && childs@.take(q as int)[w] == e;
                                assert(childs@.take(q + 1)[w] == e);
                            }
                        } else {
                            assert(ct@[k]@[j] == ct@[idx as int]@.last());
                            assert(childs@.take(q + 1)[q as int] == ei);
                        }
                    }
                }
                q = q + 1;
            }
            proof {
                let lay = layers_view(layers);
                assert(lay[idx as int].take(p + 1) =~= lay[idx as int].take(p as int).push(c));
                assert forall|k: int, j: int| 0 <= k < ct@.len() && 0 <= j < ct@[k]@.len() implies {
                    let e = conn_edge(#[trigger] ct@[k]@[j]);
                    g0.edges@[e as int].routed || reached(&g0, lay, e as int, idx as int, p + 1) || Seq::<usize>::empty().contains(e)
                } by {
                    let e = conn_edge(ct@[k]@[j]);
                    if childs@.take(q as int).contains(e) {
                        let w = choose|w: int| 0 <= w < q && childs@.take(q as int)[w] == e;
                        assert(childs@[w] == e);
                        assert(lay[idx as int].take(p + 1)[p as int] == c);
                    }
                    if reached(&g0, lay, e as int, idx as int, p as int) && !(g0.vertices@[g0.edges@[e as int].source as int].level - 1 < idx) {
                        let sv = g0.edges@[e as int].source;
                        let w = choose|w: int| 0 <= w < p && lay[idx as int].take(p as int)[w] == sv;
                        assert(lay[idx as int].take(p + 1)[w] == sv);
                    }
                }
                assert forall|e: int| 0 <= e < g0.edges@.len() && #[trigger] reached(&g0, lay, e, idx as int, p + 1) implies covers(ct@, e) by {
                    if !reached(&g0, lay, e, idx as int, p as int) {
                        assert(g0.edges@[e].source == c);
                        assert(childs@.contains(e as usize));
                        let k = choose|k: int| 0 <= k < childs@.len() && childs@[k] == e as usize;
                        assert(covers(ct@, childs@[k] as int));
                    }
                }
            }
            p = p + 1;
        }
        proof {
            let lay = layers_view(layers);
            assert(lay[idx as int].take(p as int) =~= lay[idx as int]);
            assert forall|e: int| 0 <= e < g0.edges@.len() && #[trigger] reached(&g0, lay, e, idx as int + 1, 0) implies covers(ct@, e) by {
                let sv = g0.edges@[e].source;
                if g0.vertices@[sv as int].level - 1 == idx {
                    assert(lay[idx as int].contains(sv));
                    assert(reached(&g0, lay, e, idx as int, p as int));
                } else {
                    assert(reached(&g0, lay, e, idx as int, p as int));
                }
            }
        }
        proof {
            let lay = layers_view(layers);
            assert forall|k: int, j: int| 0 <= k < ct@.len() && 0 <= j < ct@[k]@.len() implies {
                let e = conn_edge(#[trigger] ct@[k]@[j]);
                g0.edges@[e as int].routed || reached(&g0, lay, e as int, idx + 1, 0) || Seq::<usize>::empty().contains(e)
            } by {
                let e = conn_edge(ct@[k]@[j]);
                if reached(&g0, lay, e as int, idx as int, p as int) {
                    assert(reached(&g0, lay, e as int, idx + 1, 0));
                }
            }
        }
        let ghost sp0 = sp@;
        sp.push(lane);
        proof {
            assert(sp@.drop_last() =~= sp0);
        }
        idx = idx + 1;
    }
    proof {
        assert forall|e: int| 0 <= e < g0.edges@.len() && !(#[trigger] g0.edges@[e]).routed implies covers(ct@, e) by {
            let sv = g0.edges@[e].source;
            assert(g0.vertices@[sv as int].level >= 1);
            assert(reached(&g0, layers_view(layers), e, nb as int, 0));
        }
    }
    sp
}

proof fn lemma_lane_total_nonneg(sp: Seq<(i64, i64)>)
    requires
        lanes_ok(sp),
    ensures
        0 <= lane_total(sp),
    decreases sp.len(),
{
    if sp.len() > 0 {
        lemma_lane_total_nonneg(sp.drop_last());
    }
}

pub(crate) proof fn lemma_lane_total_prefix(sp: Seq<(i64, i64)>, k: int)
    requires
        lanes_ok(sp),
        0 <= k <= sp.len(),
    ensures
        0 <= lane_total(sp.take(k)) <= lane_total(sp),
    decreases sp.len() - k,
{
    lemma_lane_total_nonneg(sp.take(k));
    if k < sp.len() {
        lemma_lane_total_prefix(sp, k + 1);
        assert(sp.take(k + 1).drop_last() =~= sp.take(k));
    } else {
        assert(sp.take(k) =~= sp);
    }
}

/// Rows of lanes reserved above level `level`'s row.
pub open spec fn depth_above(sp: Seq<(i64, i64)>, level: int) -> int {
    lane_total(sp.take(level - 1))
}

pub(crate) fn lanes_above(sp: &Vec<(i64, i64)>, k: usize) -> (r: usize)
    requires
        lanes_ok(sp@),
        lane_total(sp@) <= MAX_ITEMS,
        k <= sp@.len(),
    ensures
        r == lane_total(sp@.take(k as int)),
{
    let mut d: usize = 0;
    let mut j: usize = 0;
    while j < k
        invariant
            lanes_ok(sp@),
            lane_total(sp@) <= MAX_ITEMS,
            k <= sp@.len(),
            j <= k,
            d == lane_total(sp@.take(j as int)),
        decreases k - j,
    {
        proof {
            assert(sp@.take(j + 1).drop_last() =~= sp@.take(j as int));
            lemma_lane_total_prefix(sp@, j + 1);
        }
        d = d + (sp[j].1 - sp[j].0) as usize;
        j = j + 1;
    }
    d
}

/// Step three: moves every box down by the lane rows reserved above its
/// level, and every straight connector by those above its boundary.
fn compact(g: &mut Graph, ct: &mut Vec<Vec<Connection>>, sp: &Vec<(i64, i64)>)
    requires
        old(g).wf(),
        rows_placed(old(g).vertices@),
        lanes_ok(sp@),
        0 <= lane_total(sp@) <= MAX_ITEMS,
        forall|v: int| 0 <= v < old(g).vertices@.len() ==> (#[trigger] old(g).vertices@[v]).level <= sp@.len() + 1,
        old(ct)@.len() == sp@.len(),
        forall|k: int, j: int| 0 <= k < old(ct)@.len() && 0 <= j < old(ct)@[k]@.len() ==> conn_within(#[trigger] old(ct)@[k]@[j], ROUTE_LIMIT),
    ensures
        conns_ok(&*old(g), old(ct)@) ==> conns_ok(&*final(g), final(ct)@),
        forall|e: int| covers(old(ct)@, e) ==> covers(final(ct)@, e),
        uniq(old(ct)@) ==> uniq(final(ct)@),
        final(g).wf(),
        final(g).edges@ == old(g).edges@,
        final(g).labels@ == old(g).labels@,
        final(g).vertices@.len() == old(g).vertices@.len(),
        forall|v: int| 0 <= v < final(g).vertices@.len() ==> {
            let (a, b) = (#[trigger] final(g).vertices@[v], old(g).vertices@[v]);
            &&& a.level == b.level && a.is_dummy == b.is_dummy && a.height == b.height
            &&& a.x == b.x && a.width == b.width
            &&& a.y == b.y + depth_above(sp@, b.level as int)
        },
        final(ct)@.len() == old(ct)@.len(),
        forall|k: int| 0 <= k < final(ct)@.len() ==> (#[trigger] final(ct)@[k])@.len() == old(ct)@[k]@.len(),
        forall|k: int, j: int| 0 <= k < final(ct)@.len() && 0 <= j < final(ct)@[k]@.len() ==>
            match (#[trigger] final(ct)@[k]@[j], old(ct)@[k]@[j]) {
                (Connection::Straight { x: x1, y: y1, dummy_from: f1, dummy_to: t1, edge: e1 }, Connection::Straight { x: x2, y: y2, dummy_from: f2, dummy_to: t2, edge: e2 }) =>
                    x1 == x2 && f1 == f2 && t1 == t2 && e1 == e2 && y1 == y2 + lane_total(sp@.take(k)),
                (a, b) => a == b,
            },
{
    let ghost vs0 = g.vertices@;
    let mut v: usize = 0;
    while v < g.vertices.len()
        invariant
            g.wf(),
            g.edges@ == old(g).edges@,
            g.labels@ == old(g).labels@,
            vs0 == old(g).vertices@,
            g.vertices@.len() == vs0.len(),
            rows_placed(vs0),
            lanes_ok(sp@),
            0 <= lane_total(sp@) <= MAX_ITEMS,
            forall|u: int| 0 <= u < vs0.len() ==> (#[trigger] vs0[u]).level <= sp@.len() + 1,
            v <= vs0.len(),
            forall|u: int| v <= u < vs0.len() ==> #[trigger] g.vertices@[u] == vs0[u],
            forall|u: int| 0 <= u < v ==> {
                let (a, b) = (#[trigger] g.vertices@[u], vs0[u]);
                &&& a.level == b.level && a.is_dummy == b.is_dummy && a.height == b.height
                &&& a.x == b.x && a.width == b.width
                &&& a.y == b.y + depth_above(sp@, b.level as int)
            },
        decreases vs0.len() - v,
    {
        let mut a = g.vertices[v];
        proof {
            lemma_lane_total_prefix(sp@, a.level - 1);
        }
        let d = lanes_above(sp, a.level - 1);
        a.y = a.y + d;
        g.vertices.set(v, a);
        v = v + 1;
    }
    let ghost ct0 = ct@;
    let mut k: usize = 0;
    while k < ct.len()
        invariant
            ct@.len() == ct0.len(),
            ct0 == old(ct)@,
            ct0.len() == sp@.len(),
            lanes_ok(sp@),
            0 <= lane_total(sp@) <= MAX_ITEMS,
            k <= ct0.len(),
            forall|a: int, j: int| 0 <= a < ct0.len() && 0 <= j < ct0[a]@.len() ==> conn_within(#[trigger] ct0[a]@[j], ROUTE_LIMIT),
            forall|a: int| k <= a < ct0.len() ==> #[trigger] ct@[a] == ct0[a],
            forall|a: int| 0 <= a < ct0.len() ==> (#[trigger] ct@[a])@.len() == ct0[a]@.len(),
            forall|a: int, j: int| 0 <= a < k && 0 <= j < ct@[a]@.len() ==>
                match (#[trigger] ct@[a]@[j], ct0[a]@[j]) {
                    (Connection::Straight { x: x1, y: y1, dummy_from: f1, dummy_to: t1, edge: e1 }, Connection::Straight { x: x2, y: y2, dummy_from: f2, dummy_to: t2, edge: e2 }) =>
                        x1 == x2 && f1 == f2 && t1 == t2 && e1 == e2 && y1 == y2 + lane_total(sp@.take(a)),
                    (p, q) => p == q,
                },
        decreases ct0.len() - k,
    {
        proof {
            lemma_lane_total_prefix(sp@, k as int);
        }
        let d = lanes_above(sp, k);
        let mut row: Vec<Connection> = Vec::new();
        let mut j: usize = 0;
        while j < ct[k].len()
            invariant
                ct@.len() == ct0.len(),
                k < ct0.len(),
                ct@[k as int] == ct0[k as int],
                d == lane_total(sp@.take(k as int)),
                d <= MAX_ITEMS,
                j <= ct0[k as int]@.len(),
                row@.len() == j,
                forall|i: int| 0 <= i < ct0[k as int]@.len() ==> conn_within(#[trigger] ct0[k as int]@[i], ROUTE_LIMIT),
                forall|i: int| 0 <= i < j ==>
                    match (#[trigger] row@[i], ct0[k as int]@[i]) {
                        (Connection::Straight { x: x1, y: y1, dummy_from: f1, dummy_to: t1, edge: e1 }, Connection::Straight { x: x2, y: y2, dummy_from: f2, dummy_to: t2, edge: e2 }) =>
                            x1 == x2 && f1 == f2 && t1 == t2 && e1 == e2 && y1 == y2 + d,
                        (p, q) => p == q,
                    },
            decreases ct0[k as int]@.len() - j,
        {
            let c = ct[k][j];
            assert(conn_within(ct0[k as int]@[j as int], ROUTE_LIMIT));
            let c2 = match c {
                Connection::Straight { x, y, dummy_from, dummy_to, edge } => Connection::Straight { x, y: y + d, dummy_from, dummy_to, edge },
                other => other,
            };
            row.push(c2);
            j = j + 1;
        }
        ct.set(k, row);
        k = k + 1;
    }
    proof {
        assert forall|e: int| covers(ct0, e) implies covers(ct@, e) by {
            let (k, j) = choose|k: int, j: int| 0 <= k < ct0.len() && 0 <= j < ct0[k]@.len() && conn_edge(#[trigger] ct0[k]@[j]) == e;
            assert(conn_edge(ct@[k]@[j]) == e);
        }
        assert forall|k: int, j: int| 0 <= k < ct@.len() && 0 <= j < ct@[k]@.len() implies conn_edge(#[trigger] ct@[k]@[j]) == conn_edge(ct0[k]@[j]) by {
        }
        if uniq(ct0) {
            assert forall|k1: int, j1: int, k2: int, j2: int|
                0 <= k1 < ct@.len() && 0 <= j1 < ct@[k1]@.len() && 0 <= k2 < ct@.len() && 0 <= j2 < ct@[k2]@.len() && (k1, j1)
                    != (k2, j2) implies conn_edge(#[trigger] ct@[k1]@[j1]) != conn_edge(#[trigger] ct@[k2]@[j2]) by {
                assert(conn_edge(ct0[k1]@[j1]) != conn_edge(ct0[k2]@[j2]));
            }
        }
        if conns_ok(&*old(g), ct0) {
            assert forall|k: int, j: int| 0 <= k < ct@.len() && 0 <= j < ct@[k]@.len() implies conn_ok(&*g, k, #[trigger] ct@[k]@[j]) by {
                assert(conn_ok(&*old(g), k, ct0[k]@[j]));
                let e = conn_edge(ct0[k]@[j]) as int;
                let sv = old(g).edges@[e].source as int;
                assert(g.vertices@[sv].y == old(g).vertices@[sv].y + depth_above(sp@, old(g).vertices@[sv].level as int));
                assert(old(g).vertices@[sv].level - 1 == k);
            }
        }
    }
}
pub fn add_connections(g: &mut Graph, layers: &Vec<Vec<usize>>, width: usize) -> (r: (
    Vec<Vec<Connection>>,
    Vec<(i64, i64)>,
    usize,
))
    requires
        old(g).wf(),
        layers_wf(&*old(g), layers_view(layers)),
        placed_boxes(old(g).vertices@),
        crate::dummy::unit_edges(&*old(g)),
        width <= MAX_COORD,
        forall|v: int| 0 <= v < old(g).vertices@.len() ==> (#[trigger] old(g).vertices@[v]).x + old(g).vertices@[v].width <= width,
    ensures
        conns_ok(&*final(g), r.0@),
        uniq(r.0@),
        forall|e: int|
            0 <= e < old(g).edges@.len() && (!(#[trigger] old(g).edges@[e]).routed || overlap_spec(
                box_of(old(g).vertices@[old(g).edges@[e].source as int]),
                box_of(old(g).vertices@[old(g).edges@[e].target as int]),
            ) is Some) ==> covers(r.0@, e),
        final(g).wf(),
        final(g).labels@ == old(g).labels@,
        final(g).vertices@.len() == old(g).vertices@.len(),
        final(g).edges@.len() == old(g).edges@.len(),
        forall|i: int| 0 <= i < final(g).edges@.len() ==> {
            let (a, b) = (#[trigger] final(g).edges@[i], old(g).edges@[i]);
            &&& a.source == b.source && a.target == b.target
            &&& a.routed == (b.routed || overlap_spec(
                box_of(old(g).vertices@[b.source as int]),
                box_of(old(g).vertices@[b.target as int]),
            ) is Some)
        },
        r.0@.len() == r.1@.len(),
        r.1@.len() == if layers@.len() > 0 { layers@.len() - 1 } else { 0 },
        lanes_ok(r.1@),
        0 <= lane_total(r.1@) <= MAX_ITEMS,
        width <= r.2 <= ROUTE_LIMIT,
        forall|v: int| 0 <= v < final(g).vertices@.len() ==> {
            let (a, b) = (#[trigger] final(g).vertices@[v], old(g).vertices@[v]);
            &&& a.level == b.level && a.is_dummy == b.is_dummy && a.height == b.height
            &&& a.width >= b.width
            &&& b.width <= 1 ==> a.width == b.width
            &&& a.x + a.width <= r.2
            &&& a.y == b.y + depth_above(r.1@, b.level as int)
        },
        forall|k: int, j: int| 0 <= k < r.0@.len() && 0 <= j < r.0@[k]@.len() ==> match #[trigger] r.0@[k]@[j] {
            Connection::Straight { y, .. } => y <= MAX_COORD + MAX_ITEMS,
            _ => true,
        },
        all_routed(old(g).edges@) ==> {
            &&& final(g).vertices@ == old(g).vertices@
            &&& final(g).edges@ == old(g).edges@
            &&& r.2 == width
            &&& forall|k: int| 0 <= k < r.1@.len() ==> #[trigger] r.1@[k] == (0i64, 0i64)
        },
{
    let top = layers.len();
    let nb: usize = if top > 0 { top - 1 } else { 0 };
    let ghost vs0 = g.vertices@;
    let ghost es0 = g.edges@;
    proof {
        assert forall|e: int| 0 <= e < g.edges@.len() implies g.vertices@[(#[trigger] g.edges@[e]).source as int].level <= nb by {
            let t = g.edges@[e].target as int;
            assert(g.vertices@[t].level <= layers@.len());
        }
    }
    let mut ct = straight_pass(g, nb, width);
    let ghost g1 = *g;
    let ghost es1 = g.edges@;
    let mut canvas = width;
    proof {
        lemma_layers_same(&*old(g), &*g, layers_view(layers));
    }
    let ghost ct1 = ct@;
    let ghost es1 = g.edges@;
    proof {
        assert forall|k: int, j: int| 0 <= k < ct@.len() && 0 <= j < ct@[k]@.len() implies g.edges@[conn_edge(#[trigger] ct@[k]@[j]) as int].routed by {
            assert(conn_ok(&*g, k, ct@[k]@[j]));
        }
    }
    let sp = route_bent(g, layers, &mut ct, &mut canvas);
    let ghost ct2 = ct@;
    let ghost vs2 = g.vertices@;
    proof {
        assert forall|k: int, j: int| 0 <= k < ct@.len() && 0 <= j < ct@[k]@.len() implies conn_within(#[trigger] ct@[k]@[j], ROUTE_LIMIT) by {
            assert(conn_within(ct@[k]@[j], canvas));
        }
        assert forall|v: int| 0 <= v < g.vertices@.len() implies (#[trigger] g.vertices@[v]).level <= sp@.len() + 1 by {
            assert(keeps_rows(g.vertices@[v], g1.vertices@[v]));
            assert(layers_view(layers)[g1.vertices@[v].level - 1].contains(v as usize));
        }
        assert forall|v: int| 0 <= v < g.vertices@.len() implies (#[trigger] g.vertices@[v]).y + g.vertices@[v].height <= MAX_COORD && g.vertices@[v].level >= 1 by {
            assert(keeps_rows(g.vertices@[v], g1.vertices@[v]));
        }
    }
    let ghost ct2 = ct@;
    proof {
        assert forall|e: int|
            0 <= e < es0.len() && (!(#[trigger] es0[e]).routed || overlap_spec(
                box_of(vs0[es0[e].source as int]),
                box_of(vs0[es0[e].target as int]),
            ) is Some) implies covers(ct2, e) by {
            if overlap_spec(box_of(vs0[es0[e].source as int]), box_of(vs0[es0[e].target as int])) is Some {
                assert(covers(ct1, e));
            } else {
                assert(!es1[e].routed);
            }
        }
    }
    compact(g, &mut ct, &sp);
    proof {
        assert forall|k: int, j: int| 0 <= k < ct@.len() && 0 <= j < ct@[k]@.len() implies match #[trigger] ct@[k]@[j] {
            Connection::Straight { y, .. } => y <= MAX_COORD + MAX_ITEMS,
            _ => true,
        } by {
            assert(conn_within(ct2[k]@[j], ROUTE_LIMIT));
            lemma_lane_total_prefix(sp@, k);
        }
        assert forall|v: int| 0 <= v < g.vertices@.len() implies {
            let (a, b) = (#[trigger] g.vertices@[v], vs0[v]);
            &&& a.level == b.level && a.is_dummy == b.is_dummy && a.height == b.height
            &&& a.width >= b.width
            &&& b.width <= 1 ==> a.width == b.width
            &&& a.x + a.width <= canvas
            &&& a.y == b.y + depth_above(sp@, b.level as int)
        } by {
            assert(keeps_rows(vs2[v], g1.vertices@[v]));
            assert(vs2[v].x + vs2[v].width <= canvas);
            assert(vs2[v].width >= g1.vertices@[v].width);
        }
        if all_routed(es0) {
            assert(all_routed(es1));
            assert forall|k: int| 0 <= k <= sp@.len() implies lane_total(#[trigger] sp@.take(k)) == 0 by {
                lemma_lane_total_zero(sp@.take(k));
            }
            assert(vs2 == vs0);
            assert forall|v: int| 0 <= v < vs0.len() implies #[trigger] g.vertices@[v] == vs0[v] by {
                assert(vs0[v].level - 1 <= sp@.len());
                assert(lane_total(sp@.take(vs0[v].level - 1)) == 0);
            }
            assert(g.vertices@ =~= vs0);
        }
    }
    (ct, sp, canvas)
}

proof fn lemma_lane_total_zero(sp: Seq<(i64, i64)>)
    requires
        forall|k: int| 0 <= k < sp.len() ==> #[trigger] sp[k] == (0i64, 0i64),
    ensures
        lane_total(sp) == 0,
    decreases sp.len(),
{
    if sp.len() > 0 {
        lemma_lane_total_zero(sp.drop_last());
    }
}

proof fn lemma_layers_same(g1: &Graph, g2: &Graph, layers: Seq<Seq<usize>>)
    requires
        layers_wf(g1, layers),
        g2.vertices@ == g1.vertices@,
    ensures
        layers_wf(g2, layers),
{
}

} // verus!

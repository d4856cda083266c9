//! Binary trees drawn level by level, children below their parent.

use vstd::prelude::*;
use crate::attrib::Attrib;
use crate::render::Style;
use crate::table::push_str_chars;
use crate::text::{centre_chars, push_char, repeat};
use crate::tree::TreeNode;
use crate::graph::assigned;

verus! {

/// A binary tree to draw.
pub struct BinaryTreeDiagram {
    pub data: Box<TreeNode<String>>,
    pub attribs: Attrib,
}

/// `2^k - 1`: the half-width of a subtree `k` levels above the bottom.
pub open spec fn span(k: nat) -> nat
    decreases k,
{
    if k == 0 {
        0
    } else {
        2 * span((k - 1) as nat) + 1
    }
}

/// The slots of the next level: two per slot, a node's children or
/// nothing.
pub open spec fn children(row: Seq<Option<TreeNode<String>>>) -> Seq<Option<TreeNode<String>>>
    decreases row.len(),
{
    if row.len() == 0 {
        seq![]
    } else {
        let pair: Seq<Option<TreeNode<String>>> = match row.last() {
            Some(n) => seq![
                match n.lnode { Some(b) => Some(*b), None => None },
                match n.rnode { Some(b) => Some(*b), None => None },
            ],
            None => seq![None, None],
        };
        children(row.drop_last()) + pair
    }
}

/// Level `d` of the tree as `2^d` slots.
pub open spec fn level_row(t: TreeNode<String>, d: nat) -> Seq<Option<TreeNode<String>>>
    decreases d,
{
    if d == 0 {
        seq![Some(t)]
    } else {
        children(level_row(t, (d - 1) as nat))
    }
}

/// `s` centred in `w` columns with spaces, the left part the smaller half.
pub open spec fn centre(s: Seq<char>, w: nat, l: char, r: char) -> Seq<char> {
    if s.len() > w {
        s
    } else {
        repeat(l, ((w - s.len()) / 2) as nat) + s + repeat(r, ((w - s.len()) - (w - s.len()) / 2) as nat)
    }
}

/// The text of one slot on the data line of a level `i` above the bottom.
pub open spec fn slot_text(style: Style, slot: Option<TreeNode<String>>, i: nat) -> Seq<char> {
    match slot {
        Some(n) => {
            let (l, r) = match style {
                Style::Ascii => (
                    if n.lnode is None { ' ' } else { '_' },
                    if n.rnode is None { ' ' } else { '_' },
                ),
                Style::Unicode => (' ', ' '),
            };
            centre(centre(n.value@, span(i), l, r), span(i + 2), ' ', ' ') + seq![' ']
        },
        None => repeat(' ', span(i + 2)) + seq![' '],
    }
}

pub open spec fn data_line(style: Style, row: Seq<Option<TreeNode<String>>>, i: nat) -> Seq<char>
    decreases row.len(),
{
    if row.len() == 0 {
        seq![]
    } else {
        data_line(style, row.drop_last(), i) + slot_text(style, row.last(), i)
    }
}

/// The connector text above a pair of sibling slots at level `i`.
pub open spec fn pair_text(style: Style, has_l: bool, has_r: bool, i: nat) -> Seq<char> {
    let s = span(i);
    let s1 = span(i + 1);
    match style {
        Style::Ascii => repeat(' ', s1 + 1) + (if has_l { repeat('_', s) + seq!['/'] } else { repeat(' ', s + 1) })
            + repeat(' ', s1) + (if has_r { seq!['\\'] + repeat('_', s) } else { repeat(' ', s + 1) }) + repeat(' ', s1 + 1)
            + seq![' '],
        Style::Unicode => repeat(' ', s1) + (if has_l { seq!['┌'] + repeat('─', s1) } else { repeat(' ', s1 + 1) }) + seq![
            if has_l && has_r {
                '┴'
            } else if has_l {
                '┘'
            } else if has_r {
                '└'
            } else {
                ' '
            },
        ] + (if has_r { repeat('─', s1) + seq!['┐'] } else { repeat(' ', s1 + 1) }) + repeat(' ', s1 + 1),
    }
}

/// The connector line above a level: one piece per pair of slots.
pub open spec fn arrow_line(style: Style, row: Seq<Option<TreeNode<String>>>, i: nat, pairs: nat) -> Seq<char>
    decreases pairs,
{
    if pairs == 0 {
        seq![]
    } else {
        let k = 2 * (pairs - 1);
        arrow_line(style, row, i, (pairs - 1) as nat) + pair_text(style, row[k] is Some, row[k + 1] is Some, i)
    }
}

/// The first `k` levels (from the top) of a tree of depth `depth`: above
/// each level but the first its connector line, then its data line.
pub open spec fn tree_text(style: Style, t: TreeNode<String>, depth: nat, k: nat) -> Seq<char>
    decreases k,
{
    if k == 0 {
        seq![]
    } else {
        let d = (k - 1) as nat;
        let i = (depth - 1 - d) as nat;
        let row = level_row(t, d);
        let arrows = if d == 0 {
            seq![]
        } else {
            arrow_line(style, row, i, row.len() / 2) + seq!['\n']
        };
        tree_text(style, t, depth, d) + arrows + data_line(style, row, i) + seq!['\n']
    }
}

pub open spec fn unref(s: Seq<Option<&TreeNode<String>>>) -> Seq<Option<TreeNode<String>>> {
    Seq::new(s.len(), |k: int| match s[k] { Some(n) => Some(*n), None => None })
}

fn push_run(out: &mut String, c: char, n: usize)
    ensures
        final(out)@ == old(out)@ + repeat(c, n as nat),
{
    let mut i: usize = 0;
    while i < n
        invariant
            i <= n,
            out@ == old(out)@ + repeat(c, i as nat),
        decreases n - i,
    {
        push_char(out, c);
        i = i + 1;
        assert(out@ =~= old(out)@ + repeat(c, i as nat));
    }
}

fn push_slot(out: &mut String, style: Style, slot: Option<&TreeNode<String>>, s: usize, w: usize, Ghost(i): Ghost<nat>)
    requires
        s == span(i),
        w == span(i + 2),
    ensures
        final(out)@ == old(out)@ + slot_text(style, match slot { Some(n) => Some(*n), None => None }, i),
{
    match slot {
        Some(n) => {
            let (l, r) = match style {
                Style::Ascii => (
                    if n.lnode.is_none() { ' ' } else { '_' },
                    if n.rnode.is_none() { ' ' } else { '_' },
                ),
                Style::Unicode => (' ', ' '),
            };
            let inner = centre_chars(n.value.as_str(), s, l, r);
            let outer = centre_chars(inner.as_str(), w, ' ', ' ');
            push_str_chars(out, &outer);
            push_char(out, ' ');
        },
        None => {
            push_run(out, ' ', w);
            push_char(out, ' ');
        },
    }
    assert(out@ =~= old(out)@ + slot_text(style, match slot { Some(n) => Some(*n), None => None }, i));
}

fn push_pair(out: &mut String, style: Style, has_l: bool, has_r: bool, s: usize, s1: usize, Ghost(i): Ghost<nat>)
    requires
        s == span(i),
        s1 == span(i + 1),
        s1 < usize::MAX,
    ensures
        final(out)@ == old(out)@ + pair_text(style, has_l, has_r, i),
{
    match style {
        Style::Ascii => {
            push_run(out, ' ', s1 + 1);
            if has_l {
                push_run(out, '_', s);
                push_char(out, '/');
            } else {
                push_run(out, ' ', s + 1);
            }
            push_run(out, ' ', s1);
            if has_r {
                push_char(out, '\\');
                push_run(out, '_', s);
            } else {
                push_run(out, ' ', s + 1);
            }
            push_run(out, ' ', s1 + 1);
            push_char(out, ' ');
        },
        Style::Unicode => {
            push_run(out, ' ', s1);
            if has_l {
                push_char(out, '┌');
                push_run(out, '─', s1);
            } else {
                push_run(out, ' ', s1 + 1);
            }
            push_char(out, if has_l && has_r {
                '┴'
            } else if has_l {
                '┘'
            } else if has_r {
                '└'
            } else {
                ' '
            });
            if has_r {
                push_run(out, '─', s1);
                push_char(out, '┐');
            } else {
                push_run(out, ' ', s1 + 1);
            }
            push_run(out, ' ', s1 + 1);
        },
    }
    assert(out@ =~= old(out)@ + pair_text(style, has_l, has_r, i));
}

pub open spec fn two_pow(k: nat) -> nat
    decreases k,
{
    if k == 0 {
        1
    } else {
        2 * two_pow((k - 1) as nat)
    }
}

proof fn lemma_span_small(k: nat)
    requires
        k <= 31,
    ensures
        span(k) <= 0x7fff_ffff,
{
    lemma_span_pow(k);
    lemma_two_pow_mono(k);
    reveal_with_fuel(two_pow, 32);
    assert(two_pow(31) == 0x8000_0000);
}

proof fn lemma_span_pow(k: nat)
    ensures
        span(k) + 1 == two_pow(k),
    decreases k,
{
    if k > 0 {
        lemma_span_pow((k - 1) as nat);
    }
}

proof fn lemma_two_pow_mono(k: nat)
    requires
        k <= 31,
    ensures
        two_pow(k) <= two_pow(31),
    decreases 31 - k,
{
    if k < 31 {
        lemma_two_pow_mono(k + 1);
    }
}

proof fn lemma_children_len(row: Seq<Option<TreeNode<String>>>)
    ensures
        children(row).len() == 2 * row.len(),
    decreases row.len(),
{
    if row.len() > 0 {
        lemma_children_len(row.drop_last());
    }
}

proof fn lemma_level_len(t: TreeNode<String>, d: nat)
    ensures
        level_row(t, d).len() == two_pow(d),
        d > 0 ==> level_row(t, d).len() % 2 == 0,
    decreases d,
{
    if d > 0 {
        lemma_level_len(t, (d - 1) as nat);
        lemma_children_len(level_row(t, (d - 1) as nat));
    }
}

fn next_level<'a>(row: &Vec<Option<&'a TreeNode<String>>>) -> (r: Vec<Option<&'a TreeNode<String>>>)
    ensures
        unref(r@) == children(unref(row@)),
{
    let mut r: Vec<Option<&'a TreeNode<String>>> = Vec::new();
    let mut k: usize = 0;
    while k < row.len()
        invariant
            k <= row@.len(),
            unref(r@) == children(unref(row@.take(k as int))),
        decreases row@.len() - k,
    {
        let ghost r0 = r@;
        match row[k] {
            Some(n) => {
                let l: Option<&'a TreeNode<String>> = match &n.lnode {
                    Some(b) => Some(&**b),
                    None => None,
                };
                let rr: Option<&'a TreeNode<String>> = match &n.rnode {
                    Some(b) => Some(&**b),
                    None => None,
                };
                r.push(l);
                r.push(rr);
            },
            None => {
                r.push(None);
                r.push(None);
            },
        }
        proof {
            assert(unref(row@.take(k + 1)).drop_last() =~= unref(row@.take(k as int)));
            assert(unref(r@) =~= unref(r0) + children(unref(row@.take(k + 1))).subrange(
                children(unref(row@.take(k as int))).len() as int,
                children(unref(row@.take(k + 1))).len() as int,
            ));
            assert(unref(r@) =~= children(unref(row@.take(k + 1))));
        }
        k = k + 1;
    }
    assert(row@.take(k as int) =~= row@);
    r
}

impl BinaryTreeDiagram {
    /// The tree as text, level by level from the root: each level's data
    /// line has one slot per position of a complete tree, `2^(i+2) - 1`
    /// columns wide for a level `i` above the bottom, holding the node's
    /// value centred (in ASCII, padded towards existing children with
    /// underscores); above each level but the first, a line of connectors
    /// from every parent slot to its two child slots.
    pub fn write(&self) -> (r: String)
        requires
            (*self.data).depth() <= 29,
        ensures
            r@ == tree_text(self.attribs.style, *self.data, (*self.data).depth(), (*self.data).depth()),
    {
        let st = self.attribs.style;
        let ghost t = *self.data;
        let depth = self.data.degree();
        let mut sp: Vec<usize> = Vec::new();
        let mut x: usize = 0;
        while sp.len() < depth + 2
            invariant
                depth <= 29,
                sp@.len() <= depth + 2,
                x == span(sp@.len() as nat),
                forall|k: int| 0 <= k < sp@.len() ==> #[trigger] sp@[k] == span(k as nat),
            decreases depth + 2 - sp@.len(),
        {
            proof {
                lemma_span_small((sp@.len() + 1) as nat);
            }
            sp.push(x);
            x = 2 * x + 1;
        }
        let root: &TreeNode<String> = &self.data;
        let mut next: Vec<Option<&TreeNode<String>>> = Vec::new();
        next.push(Some(root));
        assert(unref(next@) =~= level_row(t, 0));
        let mut out = String::new();
        let mut k: usize = 0;
        while k < depth
            invariant
                depth == t.depth(),
                depth <= 29,
                st == self.attribs.style,
                t == *self.data,
                sp@.len() == depth + 2,
                forall|j: int| 0 <= j < sp@.len() ==> #[trigger] sp@[j] == span(j as nat),
                k <= depth,
                unref(next@) == level_row(t, k as nat),
                out@ == tree_text(st, t, depth as nat, k as nat),
            decreases depth - k,
        {
            let i = depth - 1 - k;
            proof {
                lemma_level_len(t, k as nat);
                lemma_span_small((i + 1) as nat);
            }
            let ghost row = level_row(t, k as nat);
            let ghost before = out@;
            if k != 0 {
                let mut p: usize = 0;
                let ghost base = out@;
                while p < next.len() / 2
                    invariant
                        unref(next@) == row,
                        row.len() % 2 == 0,
                        i <= 29,
                        i + 2 < sp@.len(),
                        forall|j: int| 0 <= j < sp@.len() ==> #[trigger] sp@[j] == span(j as nat),
                        span((i + 1) as nat) <= 0x7fff_ffff,
                        p <= next@.len() / 2,
                        out@ == base + arrow_line(st, row, i as nat, p as nat),
                    decreases next@.len() / 2 - p,
                {
                    let hl = next[2 * p].is_some();
                    let hr = next[2 * p + 1].is_some();
                    proof {
                        assert(row[2 * p as int] is Some == hl);
                        assert(row[2 * p + 1] is Some == hr);
                    }
                    push_pair(&mut out, st, hl, hr, sp[i], sp[i + 1], Ghost(i as nat));
                    p = p + 1;
                }
                push_char(&mut out, '\n');
            }
            let ghost mid = out@;
            let mut q: usize = 0;
            while q < next.len()
                invariant
                    unref(next@) == row,
                    i <= 29,
                    i + 2 < sp@.len(),
                    forall|j: int| 0 <= j < sp@.len() ==> #[trigger] sp@[j] == span(j as nat),
                    q <= next@.len(),
                    out@ == mid + data_line(st, row.take(q as int), i as nat),
                decreases next@.len() - q,
            {
                proof {
                    assert(row.take(q + 1).drop_last() =~= row.take(q as int));
                    assert(row[q as int] == match next@[q as int] { Some(n) => Some(*n), None => None });
                }
                push_slot(&mut out, st, next[q], sp[i], sp[i + 2], Ghost(i as nat));
                q = q + 1;
            }
            push_char(&mut out, '\n');
            proof {
                assert(row.take(q as int) =~= row);
                assert(out@ =~= tree_text(st, t, depth as nat, (k + 1) as nat));
            }
            next = next_level(&next);
            k = k + 1;
        }
        out
    }
}

/// Every name the relationships mention (a missing child repeats its
/// parent), then `top`.
pub open spec fn all_names(rm: Seq<(String, Option<String>, Option<String>)>, top: Seq<char>) -> Seq<Seq<char>>
    decreases rm.len(),
{
    if rm.len() == 0 {
        seq![top]
    } else {
        let (k, l, r) = rm.last();
        all_names(rm.drop_last(), top) + seq![
            k@,
            match l { Some(x) => x@, None => k@ },
            match r { Some(x) => x@, None => k@ },
        ]
    }
}

proof fn lemma_all_names_len(rm: Seq<(String, Option<String>, Option<String>)>, top: Seq<char>)
    ensures
        all_names(rm, top).len() == 3 * rm.len() + 1,
    decreases rm.len(),
{
    if rm.len() > 0 {
        lemma_all_names_len(rm.drop_last(), top);
    }
}

proof fn lemma_entry_names(rm: Seq<(String, Option<String>, Option<String>)>, top: Seq<char>, i: int)
    requires
        0 <= i < rm.len(),
    ensures
        all_names(rm, top).contains(rm[i].0@),
        rm[i].1 matches Some(x) ==> all_names(rm, top).contains(x@),
        rm[i].2 matches Some(x) ==> all_names(rm, top).contains(x@),
    decreases rm.len(),
{
    let n = all_names(rm, top);
    let m = all_names(rm.drop_last(), top);
    if i < rm.len() - 1 {
        lemma_entry_names(rm.drop_last(), top, i);
        assert(rm.drop_last()[i] == rm[i]);
        assert forall|x: Seq<char>| m.contains(x) implies n.contains(x) by {
            let j = choose|j: int| 0 <= j < m.len() && m[j] == x;
            assert(n[j] == x);
        }
    } else {
        assert(n[m.len() as int] == rm[i].0@);
        assert(n[m.len() as int + 1] == match rm[i].1 { Some(x) => x@, None => rm[i].0@ });
        assert(n[m.len() as int + 2] == match rm[i].2 { Some(x) => x@, None => rm[i].0@ });
    }
}

proof fn lemma_top_named(rm: Seq<(String, Option<String>, Option<String>)>, top: Seq<char>)
    ensures
        all_names(rm, top).contains(top),
    decreases rm.len(),
{
    if rm.len() == 0 {
        assert(all_names(rm, top)[0] == top);
    } else {
        lemma_top_named(rm.drop_last(), top);
        let m = all_names(rm.drop_last(), top);
        let j = choose|j: int| 0 <= j < m.len() && m[j] == top;
        assert(all_names(rm, top)[j] == top);
    }
}

pub open spec fn names_of(v: Seq<String>) -> Seq<Seq<char>> {
    Seq::new(v.len(), |i: int| v[i]@)
}

/// The visited names are distinct and all mentioned.
pub open spec fn visit_ok(rm: Seq<(String, Option<String>, Option<String>)>, top: Seq<char>, v: Seq<String>) -> bool {
    &&& names_of(v).no_duplicates()
    &&& forall|i: int| 0 <= i < v.len() ==> all_names(rm, top).contains(#[trigger] v[i]@)
}

proof fn lemma_visited_bound(rm: Seq<(String, Option<String>, Option<String>)>, top: Seq<char>, v: Seq<String>)
    requires
        visit_ok(rm, top, v),
    ensures
        v.len() <= 3 * rm.len() + 1,
{
    let u = all_names(rm, top);
    let w = names_of(v);
    broadcast use vstd::seq_lib::seq_to_set_is_finite;
    w.unique_seq_to_set();
    u.lemma_cardinality_of_set();
    lemma_all_names_len(rm, top);
    assert(w.to_set().subset_of(u.to_set())) by {
        assert forall|x: Seq<char>| w.to_set().contains(x) implies u.to_set().contains(x) by {
            let i = choose|i: int| 0 <= i < w.len() && w[i] == x;
            assert(v[i]@ == x);
        }
    }
    vstd::set_lib::lemma_len_subset(w.to_set(), u.to_set());
}

/// Entry `e` is the first relationship listing the children of `name`.
pub open spec fn first_entry(rm: Seq<(String, Option<String>, Option<String>)>, name: Seq<char>, e: int) -> bool {
    &&& 0 <= e < rm.len()
    &&& rm[e].0@ == name
    &&& forall|j: int| 0 <= j < e ==> (#[trigger] rm[j]).0@ != name
}

fn find_entry(rm: &Vec<(String, Option<String>, Option<String>)>, name: &String) -> (r: Option<usize>)
    ensures
        r matches Some(i) ==> i < rm@.len() && rm@[i as int].0@ == name@,
        r is None ==> forall|i: int| 0 <= i < rm@.len() ==> (#[trigger] rm@[i]).0@ != name@,
        r matches Some(i) ==> first_entry(rm@, name@, i as int),
{
    let mut i: usize = 0;
    while i < rm.len()
        invariant
            i <= rm@.len(),
            forall|j: int| 0 <= j < i ==> (#[trigger] rm@[j]).0@ != name@,
        decreases rm@.len() - i,
    {
        if rm[i].0 == *name {
            return Some(i);
        }
        i = i + 1;
    }
    None
}

fn is_visited(visited: &Vec<String>, name: &String) -> (r: bool)
    ensures
        r == names_of(visited@).contains(name@),
{
    let mut i: usize = 0;
    while i < visited.len()
        invariant
            i <= visited@.len(),
            forall|j: int| 0 <= j < i ==> (#[trigger] visited@[j])@ != name@,
        decreases visited@.len() - i,
    {
        if visited[i] == *name {
            assert(names_of(visited@)[i as int] == name@);
            return true;
        }
        i = i + 1;
    }
    false
}

fn label_for(am: &Vec<(String, String)>, name: &String) -> (r: String)
    ensures
        r@ == match assigned(am@, name@) { Some(l) => l, None => name@ },
{
    match crate::graph::lookup_assigned(am, name) {
        Some(j) => am[j].1.clone(),
        None => name.clone(),
    }
}

/// Builds the subtree of `root` depth first, left before right; a child
/// already visited is left out, so each name appears at most once.
fn construct_tree_helper(
    root: &String,
    rm: &Vec<(String, Option<String>, Option<String>)>,
    am: &Vec<(String, String)>,
    visited: &mut Vec<String>,
    Ghost(top): Ghost<Seq<char>>,
) -> (r: Box<TreeNode<String>>)
    requires
        visit_ok(rm@, top, old(visited)@),
        !names_of(old(visited)@).contains(root@),
        all_names(rm@, top).contains(root@),
    ensures
        visit_ok(rm@, top, final(visited)@),
        old(visited)@.len() < final(visited)@.len(),
        final(visited)@.take(old(visited)@.len() as int) == old(visited)@,
        r.value@ == match assigned(am@, root@) { Some(l) => l, None => root@ },
        r.lnode matches Some(b) ==> exists|i: int|
            0 <= i < rm@.len() && (#[trigger] rm@[i]).0@ == root@ && (rm@[i].1 matches Some(x) && b.value@ == match assigned(am@, x@) { Some(l) => l, None => x@ }),
        r.rnode matches Some(b) ==> exists|i: int|
            0 <= i < rm@.len() && (#[trigger] rm@[i]).0@ == root@ && (rm@[i].2 matches Some(x) && b.value@ == match assigned(am@, x@) { Some(l) => l, None => x@ }),
        (forall|i: int| 0 <= i < rm@.len() ==> (#[trigger] rm@[i]).0@ != root@) ==> r.lnode is None && r.rnode is None,
        names_of(final(visited)@).contains(root@),
        forall|e: int| #[trigger] first_entry(rm@, root@, e) ==> {
            &&& (r.lnode is Some <==> (rm@[e].1 matches Some(x) && !names_of(old(visited)@).push(root@).contains(x@)))
            &&& (r.rnode is Some ==> rm@[e].2 is Some)
            &&& (rm@[e].1 matches Some(x) ==> names_of(final(visited)@).contains(x@))
            &&& (rm@[e].2 matches Some(x) ==> names_of(final(visited)@).contains(x@))
        },
    decreases 3 * rm@.len() + 2 - old(visited)@.len(),
{
    proof {
        lemma_visited_bound(rm@, top, visited@);
    }
    let ghost v0 = visited@;
    visited.push(root.clone());
    proof {
        assert(names_of(visited@) =~= names_of(v0).push(root@));
        assert forall|i: int| 0 <= i < visited@.len() implies all_names(rm@, top).contains(#[trigger] visited@[i]@) by {
            if i < v0.len() {
                assert(visited@[i] == v0[i]);
            }
        }
        assert(names_of(visited@).no_duplicates()) by {
            assert forall|i: int, j: int| 0 <= i < j < names_of(visited@).len() implies names_of(visited@)[i] != names_of(visited@)[j] by {
                if j == v0.len() {
                    assert(names_of(v0)[i] == names_of(visited@)[i]);
                }
            }
        }
        assert(visited@.take(v0.len() as int) =~= v0);
    }
    let value = label_for(am, root);
    match find_entry(rm, root) {
        Some(e) => {
            let mut lchild: Option<Box<TreeNode<String>>> = None;
            let mut rchild: Option<Box<TreeNode<String>>> = None;
            proof {
                lemma_entry_names(rm@, top, e as int);
            }
            let ghost vr = visited@;
            assert(names_of(vr) == names_of(v0).push(root@));
            if let Some(lc) = &rm[e].1 {
                if !is_visited(visited, lc) {
                    let ghost v1 = visited@;
                    assert(v1.len() == v0.len() + 1);
                    lchild = Some(construct_tree_helper(lc, rm, am, visited, Ghost(top)));
                    proof {
                        assert(visited@.take(v0.len() as int) =~= v1.take(v0.len() as int));
                        assert(visited@.take(v1.len() as int) == v1);
                    }
                }
            }
            proof {
                if visited@ == vr {
                    assert(visited@.take(vr.len() as int) =~= vr);
                }
                assert(visited@.len() >= vr.len());
                lemma_keeps_names(vr, visited@);
            }
            let ghost vm = visited@;
            assert(visited@.len() >= v0.len() + 1);
            proof {
                lemma_visited_bound(rm@, top, visited@);
            }
            if let Some(rc) = &rm[e].2 {
                if !is_visited(visited, rc) {
                    let ghost v2 = visited@;
                    rchild = Some(construct_tree_helper(rc, rm, am, visited, Ghost(top)));
                    proof {
                        assert(visited@.take(v0.len() as int) =~= v2.take(v0.len() as int));
                        assert(visited@.take(v2.len() as int) == v2);
                    }
                }
            }
            proof {
                if visited@ == vm {
                    assert(visited@.take(vm.len() as int) =~= vm);
                }
                assert(visited@.len() >= vm.len());
                assert(visited@.take(vr.len() as int) =~= visited@.take(vm.len() as int).take(vr.len() as int));
                lemma_keeps_names(vm, visited@);
                lemma_keeps_names(vr, visited@);
                assert(names_of(vr).contains(root@)) by {
                    assert(names_of(vr)[v0.len() as int] == root@);
                }
                assert forall|e2: int| #[trigger] first_entry(rm@, root@, e2) implies e2 == e as int by {
                    if e2 < e {
                        assert(rm@[e2].0@ != root@);
                    } else if e2 > e {
                        assert(rm@[e as int].0@ != root@);
                    }
                }
            }
            Box::new(TreeNode::new(value, lchild, rchild))
        },
        None => {
            proof {
                assert(names_of(visited@)[v0.len() as int] == root@);
            }
            Box::new(TreeNode::new_leaf(value))
        },
    }
}

/// Names of a prefix stay among the names of the whole.
proof fn lemma_keeps_names(a: Seq<String>, b: Seq<String>)
    requires
        a.len() <= b.len(),
        b.take(a.len() as int) == a,
    ensures
        forall|x: Seq<char>| names_of(a).contains(x) ==> names_of(b).contains(x),
{
    assert forall|x: Seq<char>| names_of(a).contains(x) implies names_of(b).contains(x) by {
        let i = choose|i: int| 0 <= i < names_of(a).len() && names_of(a)[i] == x;
        assert(b[i] == b.take(a.len() as int)[i]);
        assert(names_of(b)[i] == x);
    }
}

/// The binary tree rooted at `root`, built from `(name, left, right)`
/// relationships depth first; each node shows its assigned label, or its
/// name when it has none, and a name already placed is not placed again.
pub fn construct_tree(
    root: &String,
    rm: &Vec<(String, Option<String>, Option<String>)>,
    am: &Vec<(String, String)>,
) -> (r: Box<TreeNode<String>>)
    ensures
        r.value@ == match assigned(am@, root@) { Some(l) => l, None => root@ },
        r.lnode matches Some(b) ==> exists|i: int|
            0 <= i < rm@.len() && (#[trigger] rm@[i]).0@ == root@ && (rm@[i].1 matches Some(x) && b.value@ == match assigned(am@, x@) { Some(l) => l, None => x@ }),
        r.rnode matches Some(b) ==> exists|i: int|
            0 <= i < rm@.len() && (#[trigger] rm@[i]).0@ == root@ && (rm@[i].2 matches Some(x) && b.value@ == match assigned(am@, x@) { Some(l) => l, None => x@ }),
        (forall|i: int| 0 <= i < rm@.len() ==> (#[trigger] rm@[i]).0@ != root@) ==> r.lnode is None && r.rnode is None,
        forall|e: int| #[trigger] first_entry(rm@, root@, e) ==> {
            &&& (r.lnode is Some <==> (rm@[e].1 matches Some(x) && x@ != root@))
            &&& (r.rnode is Some ==> rm@[e].2 is Some)
        },
{
    let mut visited: Vec<String> = Vec::new();
    proof {
        lemma_top_named(rm@, root@);
        assert(names_of(visited@) =~= Seq::<Seq<char>>::empty());
    }
    let ghost v0 = visited@;
    let r = construct_tree_helper(root, rm, am, &mut visited, Ghost(root@));
    proof {
        assert forall|x: Seq<char>| names_of(v0).push(root@).contains(x) <==> x == root@ by {
            if names_of(v0).push(root@).contains(x) {
                let i = choose|i: int| 0 <= i < names_of(v0).push(root@).len() && names_of(v0).push(root@)[i] == x;
            }
            if x == root@ {
                assert(names_of(v0).push(root@)[0] == x);
            }
        }
    }
    r
}

} // verus!

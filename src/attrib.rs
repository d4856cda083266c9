//! Style names, attribute blocks and diagram titles.

use vstd::prelude::*;
use crate::render::Style;

verus! {

/// The text named no known style.
#[derive(Clone, Copy, Debug, PartialEq, Eq, Structural)]
pub struct ParseStyleError;

/// Diagram attributes given in a `{key: value, ...}` block.
#[derive(Clone, Copy, Debug, PartialEq, Eq, Structural)]
pub struct Attrib {
    pub style: Style,
}

/// `c` in lower case when it is an ASCII capital.
pub open spec fn ascii_lower(c: char) -> char {
    if 'A' <= c <= 'Z' {
        ((c as u32) + 32) as char
    } else {
        c
    }
}

/// `s` equals the lower-case word `w` up to ASCII case.
pub open spec fn eq_ignore_case(s: Seq<char>, w: Seq<char>) -> bool {
    s.len() == w.len() && forall|i: int| 0 <= i < s.len() ==> ascii_lower(#[trigger] s[i]) == w[i]
}

fn lower_char(c: char) -> (r: char)
    ensures
        r == ascii_lower(c),
{
    if 'A' <= c && c <= 'Z' {
        ((c as u8) + 32) as char
    } else {
        c
    }
}

fn word_matches(s: &Vec<char>, w: &str) -> (r: bool)
    requires
        forall|i: int| 0 <= i < w@.len() ==> ascii_lower(#[trigger] w@[i]) == w@[i],
    ensures
        r == eq_ignore_case(s@, w@),
{
    let n = w.unicode_len();
    if s.len() != n {
        return false;
    }
    let mut i: usize = 0;
    while i < n
        invariant
            n == w@.len(),
            s@.len() == n,
            i <= n,
            forall|k: int| 0 <= k < i ==> ascii_lower(#[trigger] s@[k]) == w@[k],
        decreases n - i,
    {
        if lower_char(s[i]) != w.get_char(i) {
            return false;
        }
        i = i + 1;
    }
    true
}

/// The style named by `s` (ASCII case ignored), if any.
pub open spec fn style_named(s: Seq<char>) -> Option<Style> {
    if eq_ignore_case(s, seq!['a', 's', 'c', 'i', 'i']) {
        Some(Style::Ascii)
    } else if eq_ignore_case(s, seq!['u', 'n', 'i', 'c', 'o', 'd', 'e']) {
        Some(Style::Unicode)
    } else {
        None
    }
}

fn to_chars(s: &str) -> (r: Vec<char>)
    ensures
        r@ == s@,
{
    let n = s.unicode_len();
    let mut r: Vec<char> = Vec::new();
    let mut i: usize = 0;
    while i < n
        invariant
            n == s@.len(),
            i <= n,
            r@ == s@.take(i as int),
        decreases n - i,
    {
        r.push(s.get_char(i));
        i = i + 1;
        assert(r@ =~= s@.take(i as int));
    }
    assert(s@.take(n as int) =~= s@);
    r
}

fn style_of_chars(s: &Vec<char>) -> (r: Result<Style, ParseStyleError>)
    ensures
        r == match style_named(s@) {
            Some(st) => Ok::<Style, ParseStyleError>(st),
            None => Err(ParseStyleError),
        },
{
    proof {
        reveal_strlit("ascii");
        reveal_strlit("unicode");
    }
    if word_matches(s, "ascii") {
        assert("ascii"@ =~= seq!['a', 's', 'c', 'i', 'i']);
        Ok(Style::Ascii)
    } else if word_matches(s, "unicode") {
        assert("ascii"@ =~= seq!['a', 's', 'c', 'i', 'i']);
        assert("unicode"@ =~= seq!['u', 'n', 'i', 'c', 'o', 'd', 'e']);
        Ok(Style::Unicode)
    } else {
        assert("ascii"@ =~= seq!['a', 's', 'c', 'i', 'i']);
        assert("unicode"@ =~= seq!['u', 'n', 'i', 'c', 'o', 'd', 'e']);
        Err(ParseStyleError)
    }
}

impl Style {
    /// `ascii` or `unicode`, in any ASCII case.
    pub fn from_str(s: &str) -> (r: Result<Style, ParseStyleError>)
        ensures
            r == match style_named(s@) {
                Some(st) => Ok::<Style, ParseStyleError>(st),
                None => Err(ParseStyleError),
            },
    {
        let v = to_chars(s);
        style_of_chars(&v)
    }
}

/// ASCII whitespace.
pub open spec fn is_space(c: char) -> bool {
    c == ' ' || c == '\t' || c == '\n' || c == '\r' || c == '\u{0B}' || c == '\u{0C}'
}

/// `s` without leading characters `c` (or, when `c` is `None`, spaces).
pub open spec fn strip_front(s: Seq<char>, c: Option<char>) -> Seq<char>
    decreases s.len(),
{
    if s.len() > 0 && (match c { Some(d) => s[0] == d, None => is_space(s[0]) }) {
        strip_front(s.drop_first(), c)
    } else {
        s
    }
}

/// `s` without trailing characters `c` (or, when `c` is `None`, spaces).
pub open spec fn strip_back(s: Seq<char>, c: Option<char>) -> Seq<char>
    decreases s.len(),
{
    if s.len() > 0 && (match c { Some(d) => s.last() == d, None => is_space(s.last()) }) {
        strip_back(s.drop_last(), c)
    } else {
        s
    }
}

pub open spec fn trim(s: Seq<char>) -> Seq<char> {
    strip_back(strip_front(s, None), None)
}

/// The pieces of `s` between commas, reading left to right: those ended so
/// far and the current one.
pub open spec fn split_scan(s: Seq<char>) -> (Seq<Seq<char>>, Seq<char>)
    decreases s.len(),
{
    if s.len() == 0 {
        (seq![], seq![])
    } else {
        let (ps, cur) = split_scan(s.drop_last());
        if s.last() == ',' {
            (ps.push(cur), seq![])
        } else {
            (ps, cur.push(s.last()))
        }
    }
}

/// The pieces of `s` between commas (at least one).
pub open spec fn pieces(s: Seq<char>) -> Seq<Seq<char>> {
    split_scan(s).0.push(split_scan(s).1)
}

/// Position of the first colon in `s`, if any.
pub open spec fn first_colon(s: Seq<char>) -> Option<int>
    decreases s.len(),
{
    if s.len() == 0 {
        None
    } else {
        match first_colon(s.drop_last()) {
            Some(k) => Some(k),
            None => if s.last() == ':' { Some(s.len() - 1) } else { None },
        }
    }
}

/// The style a `key: value` piece sets: key `style` in any ASCII case and
/// a known style name as value, both trimmed.
pub open spec fn piece_style(p: Seq<char>) -> Option<Style> {
    let q = trim(p);
    match first_colon(q) {
        Some(k) => if eq_ignore_case(trim(q.take(k)), seq!['s', 't', 'y', 'l', 'e']) {
            style_named(trim(q.skip(k + 1)))
        } else {
            None
        },
        None => None,
    }
}

/// The style the last piece that sets one sets, else `default`.
pub open spec fn last_style(ps: Seq<Seq<char>>, default: Style) -> Style
    decreases ps.len(),
{
    if ps.len() == 0 {
        default
    } else {
        match piece_style(ps.last()) {
            Some(st) => st,
            None => last_style(ps.drop_last(), default),
        }
    }
}

/// The block's content: trimmed, closing braces dropped from its end and
/// opening braces from its start.
pub open spec fn block_body(s: Seq<char>) -> Seq<char> {
    strip_front(strip_back(trim(s), Some('}')), Some('{'))
}

fn space(c: char) -> (r: bool)
    ensures
        r == is_space(c),
{
    c == ' ' || c == '\t' || c == '\n' || c == '\r' || c == '\u{0B}' || c == '\u{0C}'
}

fn matches_strip(c: char, d: Option<char>) -> (r: bool)
    ensures
        r == match d { Some(e) => c == e, None => is_space(c) },
{
    match d {
        Some(e) => c == e,
        None => space(c),
    }
}

proof fn lemma_strip_front_skip(s: Seq<char>, c: Option<char>, i: int)
    requires
        0 <= i <= s.len(),
        forall|k: int| 0 <= k < i ==> (match c { Some(d) => #[trigger] s[k] == d, None => is_space(s[k]) }),
    ensures
        strip_front(s, c) == strip_front(s.skip(i), c),
    decreases i,
{
    if i > 0 {
        assert(s.skip(1).skip(i - 1) =~= s.skip(i));
        assert(s.drop_first() =~= s.skip(1));
        lemma_strip_front_skip(s.skip(1), c, i - 1);
    } else {
        assert(s.skip(0) =~= s);
    }
}

proof fn lemma_strip_back_take(s: Seq<char>, c: Option<char>, i: int)
    requires
        0 <= i <= s.len(),
        forall|k: int| i <= k < s.len() ==> (match c { Some(d) => #[trigger] s[k] == d, None => is_space(s[k]) }),
    ensures
        strip_back(s, c) == strip_back(s.take(i), c),
    decreases s.len() - i,
{
    if i < s.len() {
        assert(s.drop_last() =~= s.take(s.len() - 1));
        assert(s.take(s.len() - 1).take(i) =~= s.take(i));
        lemma_strip_back_take(s.drop_last(), c, i);
    } else {
        assert(s.take(i) =~= s);
    }
}

fn strip(s: &Vec<char>, front: Option<char>, back: Option<char>, do_front: bool, do_back: bool) -> (r: Vec<char>)
    ensures
        r@ == {
            let a = if do_front { strip_front(s@, front) } else { s@ };
            if do_back { strip_back(a, back) } else { a }
        },
{
    let mut a: usize = 0;
    if do_front {
        while a < s.len() && matches_strip(s[a], front)
            invariant
                a <= s@.len(),
                forall|k: int| 0 <= k < a ==> (match front { Some(d) => #[trigger] s@[k] == d, None => is_space(s@[k]) }),
            decreases s@.len() - a,
        {
            a = a + 1;
        }
        proof {
            lemma_strip_front_skip(s@, front, a as int);
            if a < s@.len() {
                assert(s@.skip(a as int)[0] == s@[a as int]);
            }
        }
    }
    let ghost mid = s@.skip(a as int);
    let mut b: usize = s.len();
    if do_back {
        while b > a && matches_strip(s[b - 1], back)
            invariant
                a <= b <= s@.len(),
                forall|k: int| b <= k < s@.len() ==> (match back { Some(d) => #[trigger] s@[k] == d, None => is_space(s@[k]) }),
            decreases b,
        {
            b = b - 1;
        }
        proof {
            let m = mid;
            assert forall|k: int| b - a <= k < m.len() implies (match back { Some(d) => #[trigger] m[k] == d, None => is_space(m[k]) }) by {
                assert(m[k] == s@[k + a]);
            }
            lemma_strip_back_take(m, back, b - a);
            if b > a {
                assert(m.take(b - a).last() == s@[b - 1]);
            }
        }
    }
    let mut r: Vec<char> = Vec::new();
    let mut i: usize = a;
    while i < b
        invariant
            a <= i <= b <= s@.len(),
            r@ == s@.subrange(a as int, i as int),
        decreases b - i,
    {
        r.push(s[i]);
        i = i + 1;
        assert(r@ =~= s@.subrange(a as int, i as int));
    }
    proof {
        assert(mid.take(b - a) =~= s@.subrange(a as int, b as int));
        if !do_back {
            assert(s@.subrange(a as int, b as int) =~= mid);
        }
        if !do_front {
            assert(s@.skip(0) =~= s@);
        }
    }
    r
}

proof fn lemma_first_colon(q: Seq<char>, k: int)
    requires
        0 <= k <= q.len(),
        forall|j: int| 0 <= j < k ==> #[trigger] q[j] != ':',
    ensures
        k < q.len() && q[k] == ':' ==> first_colon(q) == Some(k),
        k == q.len() ==> first_colon(q) is None,
    decreases q.len(),
{
    if q.len() > 0 {
        if k < q.len() && q[k] == ':' {
            if k < q.len() - 1 {
                lemma_first_colon(q.drop_last(), k);
            } else {
                lemma_first_colon(q.drop_last(), k);
            }
        } else if k == q.len() {
            lemma_first_colon(q.drop_last(), k - 1);
        }
    }
}

fn take_chars(q: &Vec<char>, from: usize, to: usize) -> (r: Vec<char>)
    requires
        from <= to <= q@.len(),
    ensures
        r@ == q@.subrange(from as int, to as int),
{
    let mut r: Vec<char> = Vec::new();
    let mut i: usize = from;
    while i < to
        invariant
            from <= i <= to <= q@.len(),
            r@ == q@.subrange(from as int, i as int),
        decreases to - i,
    {
        r.push(q[i]);
        i = i + 1;
        assert(r@ =~= q@.subrange(from as int, i as int));
    }
    r
}

fn style_of_piece(p: &Vec<char>) -> (r: Option<Style>)
    ensures
        r == piece_style(p@),
{
    let q = strip(p, None, None, true, true);
    let mut k: usize = 0;
    while k < q.len() && q[k] != ':'
        invariant
            k <= q@.len(),
            forall|j: int| 0 <= j < k ==> #[trigger] q@[j] != ':',
        decreases q@.len() - k,
    {
        k = k + 1;
    }
    proof {
        lemma_first_colon(q@, k as int);
    }
    if k == q.len() {
        return None;
    }
    let key0 = take_chars(&q, 0, k);
    let key = strip(&key0, None, None, true, true);
    proof {
        assert(key0@ =~= q@.take(k as int));
        reveal_strlit("style");
    }
    if !word_matches(&key, "style") {
        assert("style"@ =~= seq!['s', 't', 'y', 'l', 'e']);
        return None;
    }
    assert("style"@ =~= seq!['s', 't', 'y', 'l', 'e']);
    let value0 = take_chars(&q, k + 1, q.len());
    let value = strip(&value0, None, None, true, true);
    proof {
        assert(value0@ =~= q@.skip(k + 1));
    }
    match style_of_chars(&value) {
        Ok(st) => Some(st),
        Err(_) => None,
    }
}

impl Attrib {
    /// Reads a `{key: value, ...}` block: trimmed, closing braces dropped
    /// from the end and opening ones from the start, then split at commas.
    /// Every `style: <name>` piece with a known name sets the style (the
    /// last one wins); other pieces are ignored. The style is `Ascii` when
    /// no piece sets one.
    pub fn parse_from_str(input: &str) -> (r: Attrib)
        ensures
            r.style == last_style(pieces(block_body(input@)), Style::Ascii),
    {
        let s = to_chars(input);
        let t = strip(&s, None, None, true, true);
        let u = strip(&t, None, Some('}'), false, true);
        let body = strip(&u, Some('{'), None, true, false);
        let mut style = Style::Ascii;
        let mut cur: Vec<char> = Vec::new();
        let mut i: usize = 0;
        while i < body.len()
            invariant
                i <= body@.len(),
                cur@ == split_scan(body@.take(i as int)).1,
                style == last_style(split_scan(body@.take(i as int)).0, Style::Ascii),
            decreases body@.len() - i,
        {
            proof {
                assert(body@.take(i + 1).drop_last() =~= body@.take(i as int));
            }
            if body[i] == ',' {
                let ghost ps = split_scan(body@.take(i as int)).0;
                match style_of_piece(&cur) {
                    Some(st) => {
                        style = st;
                    },
                    None => {},
                }
                proof {
                    assert(ps.push(cur@).drop_last() =~= ps);
                }
                cur = Vec::new();
            } else {
                cur.push(body[i]);
            }
            i = i + 1;
        }
        proof {
            assert(body@.take(i as int) =~= body@);
            let ps = split_scan(body@).0;
            assert(pieces(body@).drop_last() =~= ps);
        }
        match style_of_piece(&cur) {
            Some(st) => {
                style = st;
            },
            None => {},
        }
        Attrib { style }
    }
}

/// The kinds of diagram a script may hold.
#[derive(Clone, Copy, Debug, PartialEq, Eq, Structural)]
pub enum DiagramKind {
    BinaryTree,
    Table,
    Grid,
    Dag,
    Timeline,
    Gantt,
}

/// The kind a diagram title names (ASCII case ignored), if any.
pub open spec fn kind_named(t: Seq<char>) -> Option<DiagramKind> {
    if eq_ignore_case(t, seq!['b', 'i', 'n', 'a', 'r', 'y', '_', 't', 'r', 'e', 'e']) {
        Some(DiagramKind::BinaryTree)
    } else if eq_ignore_case(t, seq!['t', 'a', 'b', 'l', 'e']) {
        Some(DiagramKind::Table)
    } else if eq_ignore_case(t, seq!['g', 'r', 'i', 'd']) {
        Some(DiagramKind::Grid)
    } else if eq_ignore_case(t, seq!['d', 'a', 'g']) {
        Some(DiagramKind::Dag)
    } else if eq_ignore_case(t, seq!['t', 'i', 'm', 'e', 'l', 'i', 'n', 'e']) {
        Some(DiagramKind::Timeline)
    } else if eq_ignore_case(t, seq!['g', 'a', 'n', 't', 't']) {
        Some(DiagramKind::Gantt)
    } else {
        None
    }
}

/// The kind of diagram a title names: `binary_tree`, `table`, `grid`,
/// `dag`, `timeline` or `gantt`, in any ASCII case.
pub fn init_diagram(title: &str) -> (r: Option<DiagramKind>)
    ensures
        r == kind_named(title@),
{
    let t = to_chars(title);
    proof {
        reveal_strlit("binary_tree");
        reveal_strlit("table");
        reveal_strlit("grid");
        reveal_strlit("dag");
        reveal_strlit("timeline");
        reveal_strlit("gantt");
        assert("binary_tree"@ =~= seq!['b', 'i', 'n', 'a', 'r', 'y', '_', 't', 'r', 'e', 'e']);
        assert("table"@ =~= seq!['t', 'a', 'b', 'l', 'e']);
        assert("grid"@ =~= seq!['g', 'r', 'i', 'd']);
        assert("dag"@ =~= seq!['d', 'a', 'g']);
        assert("timeline"@ =~= seq!['t', 'i', 'm', 'e', 'l', 'i', 'n', 'e']);
        assert("gantt"@ =~= seq!['g', 'a', 'n', 't', 't']);
    }
    if word_matches(&t, "binary_tree") {
        Some(DiagramKind::BinaryTree)
    } else if word_matches(&t, "table") {
        Some(DiagramKind::Table)
    } else if word_matches(&t, "grid") {
        Some(DiagramKind::Grid)
    } else if word_matches(&t, "dag") {
        Some(DiagramKind::Dag)
    } else if word_matches(&t, "timeline") {
        Some(DiagramKind::Timeline)
    } else if word_matches(&t, "gantt") {
        Some(DiagramKind::Gantt)
    } else {
        None
    }
}

} // verus!

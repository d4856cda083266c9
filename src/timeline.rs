//! Vertical timelines of dated entries.

use vstd::prelude::*;
use crate::attrib::Attrib;
use crate::place::MAX_COORD;
use crate::render::Style;
use crate::table::push_str_chars;
use crate::text::{push_char, repeat};

verus! {

/// A vertical timeline of (time, description) entries.
pub struct TimelineDiagram {
    pub data: Vec<(String, String)>,
    pub max_width: usize,
    pub attribs: Attrib,
}

/// Why a timeline could not be built.
#[derive(Clone, Copy, Debug, PartialEq, Eq, Structural)]
pub enum TimelineError {
    /// The entry at this index has an empty time.
    EmptyTime(usize),
    /// The entry at this index has a time too long to draw.
    TimeTooLong(usize),
}

pub open spec fn line_of(s: Seq<char>) -> Seq<char> {
    s + seq!['\n']
}

/// The marker line above (`above`) or below an entry whose time leaves
/// `d` columns on its left, shifted right by `shift`.
pub open spec fn mark_line(style: Style, shift: nat, d: nat, above: bool) -> Seq<char> {
    match style {
        Style::Ascii => line_of(repeat(' ', shift) + repeat('-', d) + seq!['v'] + repeat('-', d)),
        Style::Unicode => line_of(repeat(' ', shift) + repeat(' ', d) + seq![if above { '╨' } else { '╥' }]),
    }
}

/// Columns left of the axis for a time of `len` characters.
pub open spec fn half(len: nat) -> nat {
    len / 2 + 1
}

/// The lines of one entry: marker, time and description, marker, axis.
pub open spec fn entry_text(style: Style, h: nat, time: Seq<char>, des: Seq<char>) -> Seq<char> {
    let d = half(time.len());
    let shift = (h - d) as nat;
    mark_line(style, shift, d, true) + middle_line(style, shift, time, des) + mark_line(style, shift, d, false)
        + axis_line(style, h)
}

/// The time (one more space before it when its length is even) and, when
/// there is one, a link and the description.
pub open spec fn middle_line(style: Style, shift: nat, time: Seq<char>, des: Seq<char>) -> Seq<char> {
    let link = match style {
        Style::Ascii => seq![' ', ' ', '>', '-', '-', '-', ' '],
        Style::Unicode => seq![' ', ' ', '┄', '┄', '┄', '┄', ' '],
    };
    line_of(
        repeat(' ', shift) + seq![' '] + (if time.len() % 2 == 0 { seq![' '] } else { seq![] }) + time + (if des.len()
            > 0 { link } else { seq![] }) + des,
    )
}

pub open spec fn axis_line(style: Style, h: nat) -> Seq<char> {
    line_of(repeat(' ', h) + seq![match style { Style::Ascii => '|', Style::Unicode => '║' }])
}

pub open spec fn entries_text(style: Style, h: nat, data: Seq<(String, String)>) -> Seq<char>
    decreases data.len(),
{
    if data.len() == 0 {
        seq![]
    } else {
        entries_text(style, h, data.drop_last()) + entry_text(style, h, data.last().0@, data.last().1@)
    }
}

/// The whole timeline: three axis lines, the entries, two axis lines and
/// the arrow head.
pub open spec fn timeline_text(style: Style, max_width: nat, data: Seq<(String, String)>) -> Seq<char> {
    let h = half(max_width);
    axis_line(style, h) + axis_line(style, h) + axis_line(style, h) + entries_text(style, h, data) + axis_line(style, h)
        + axis_line(style, h) + line_of(repeat(' ', h) + seq![match style { Style::Ascii => 'V', Style::Unicode => '▼' }])
}

fn push_run(out: &mut String, c: char, n: usize)
    ensures
        final(out)@ == old(out)@ + repeat(c, n as nat),
{
    let mut i: usize = 0;
    while i < n
        invariant
            i <= n,
            out@ == old(out)@ + repeat(c, i as nat),
        decreases n - i,
    {
        push_char(out, c);
        i = i + 1;
        assert(out@ =~= old(out)@ + repeat(c, i as nat));
    }
}

fn push_axis(out: &mut String, style: Style, h: usize)
    ensures
        final(out)@ == old(out)@ + axis_line(style, h as nat),
{
    push_run(out, ' ', h);
    push_char(out, match style { Style::Ascii => '|', Style::Unicode => '║' });
    push_char(out, '\n');
    assert(out@ =~= old(out)@ + axis_line(style, h as nat));
}

fn push_mark(out: &mut String, style: Style, shift: usize, d: usize, above: bool)
    ensures
        final(out)@ == old(out)@ + mark_line(style, shift as nat, d as nat, above),
{
    push_run(out, ' ', shift);
    match style {
        Style::Ascii => {
            push_run(out, '-', d);
            push_char(out, 'v');
            push_run(out, '-', d);
        },
        Style::Unicode => {
            push_run(out, ' ', d);
            push_char(out, if above { '╨' } else { '╥' });
        },
    }
    push_char(out, '\n');
    assert(out@ =~= old(out)@ + mark_line(style, shift as nat, d as nat, above));
}

fn push_link(out: &mut String, st: Style)
    ensures
        final(out)@ == old(out)@ + match st {
            Style::Ascii => seq![' ', ' ', '>', '-', '-', '-', ' '],
            Style::Unicode => seq![' ', ' ', '┄', '┄', '┄', '┄', ' '],
        },
{
    match st {
        Style::Ascii => {
            push_char(out, ' ');
            push_char(out, ' ');
            push_char(out, '>');
            push_char(out, '-');
            push_char(out, '-');
            push_char(out, '-');
            push_char(out, ' ');
        },
        Style::Unicode => {
            push_char(out, ' ');
            push_char(out, ' ');
            push_char(out, '┄');
            push_char(out, '┄');
            push_char(out, '┄');
            push_char(out, '┄');
            push_char(out, ' ');
        },
    }
    proof {
        match st {
            Style::Ascii => {
                assert(out@ =~= old(out)@ + seq![' ', ' ', '>', '-', '-', '-', ' ']);
            },
            Style::Unicode => {
                assert(out@ =~= old(out)@ + seq![' ', ' ', '┄', '┄', '┄', '┄', ' ']);
            },
        }
    }
}

fn push_middle(out: &mut String, st: Style, shift: usize, time: &String, des: &String)
    ensures
        final(out)@ == old(out)@ + middle_line(st, shift as nat, time@, des@),
{
    let len = time.as_str().unicode_len();
    push_run(out, ' ', shift);
    push_char(out, ' ');
    if len % 2 == 0 {
        push_char(out, ' ');
    }
    push_str_chars(out, time);
    let dn = des.as_str().unicode_len();
    if dn > 0 {
        push_link(out, st);
    }
    push_str_chars(out, des);
    push_char(out, '\n');
    assert(out@ =~= old(out)@ + middle_line(st, shift as nat, time@, des@));
}

fn push_entry(out: &mut String, st: Style, h: usize, time: &String, des: &String)
    requires
        half(time@.len()) <= h,
    ensures
        final(out)@ == old(out)@ + entry_text(st, h as nat, time@, des@),
{
    let len = time.as_str().unicode_len();
    let d = len / 2 + 1;
    let shift = h - d;
    push_mark(out, st, shift, d, true);
    push_middle(out, st, shift, time, des);
    push_mark(out, st, shift, d, false);
    push_axis(out, st, h);
    assert(out@ =~= old(out)@ + entry_text(st, h as nat, time@, des@));
}

impl TimelineDiagram {
    pub open spec fn wf(&self) -> bool {
        &&& self.max_width <= MAX_COORD
        &&& forall|i: int| 0 <= i < self.data@.len() ==> (#[trigger] self.data@[i]).0@.len() <= self.max_width
    }

    /// A timeline of the entries; `max_width` is the longest time. Fails on
    /// the first entry whose time is empty or longer than `MAX_COORD`.
    pub fn new(data: Vec<(String, String)>, attribs: Attrib) -> (r: Result<TimelineDiagram, TimelineError>)
        ensures
            r matches Ok(t) ==> {
                &&& t.wf()
                &&& t.data@ == data@
                &&& t.attribs == attribs
                &&& forall|i: int| 0 <= i < data@.len() ==> (#[trigger] data@[i]).0@.len() <= t.max_width
                &&& data@.len() == 0 ==> t.max_width == 0
                &&& data@.len() > 0 ==> exists|i: int| 0 <= i < data@.len() && (#[trigger] data@[i]).0@.len() == t.max_width
            },
            r matches Err(TimelineError::EmptyTime(i)) ==> i < data@.len() && data@[i as int].0@.len() == 0,
            r matches Err(TimelineError::TimeTooLong(i)) ==> i < data@.len() && data@[i as int].0@.len() > MAX_COORD,
            (forall|i: int| 0 <= i < data@.len() ==> 0 < (#[trigger] data@[i]).0@.len() <= MAX_COORD) ==> r is Ok,
    {
        let mut w: usize = 0;
        let mut i: usize = 0;
        while i < data.len()
            invariant
                i <= data@.len(),
                w <= MAX_COORD,
                forall|k: int| 0 <= k < i ==> 0 < (#[trigger] data@[k]).0@.len() <= w,
                i == 0 ==> w == 0,
                i > 0 ==> exists|k: int| 0 <= k < i && (#[trigger] data@[k]).0@.len() == w,
            decreases data@.len() - i,
        {
            let len = data[i].0.as_str().unicode_len();
            if len == 0 {
                return Err(TimelineError::EmptyTime(i));
            }
            if len > MAX_COORD {
                return Err(TimelineError::TimeTooLong(i));
            }
            if len > w {
                w = len;
            }
            i = i + 1;
        }
        Ok(TimelineDiagram { data, max_width: w, attribs })
    }

    /// The timeline as text, in the glyphs of its style.
    pub fn write(&self) -> (r: String)
        requires
            self.wf(),
        ensures
            r@ == timeline_text(self.attribs.style, self.max_width as nat, self.data@),
    {
        let st = self.attribs.style;
        let h = self.max_width / 2 + 1;
        let mut out = String::new();
        push_axis(&mut out, st, h);
        push_axis(&mut out, st, h);
        push_axis(&mut out, st, h);
        let ghost base = out@;
        let mut i: usize = 0;
        while i < self.data.len()
            invariant
                self.wf(),
                st == self.attribs.style,
                h == half(self.max_width as nat),
                i <= self.data@.len(),
                out@ == base + entries_text(st, h as nat, self.data@.take(i as int)),
            decreases self.data@.len() - i,
        {
            let time = &self.data[i].0;
            let des = &self.data[i].1;
            assert(time@.len() <= self.max_width);
            let ghost before = out@;
            push_entry(&mut out, st, h, time, des);
            proof {
                assert(self.data@.take(i + 1).drop_last() =~= self.data@.take(i as int));
                assert(out@ == before + entry_text(st, h as nat, time@, des@));
            }
            i = i + 1;
        }
        assert(self.data@.take(i as int) =~= self.data@);
        push_axis(&mut out, st, h);
        push_axis(&mut out, st, h);
        push_run(&mut out, ' ', h);
        push_char(&mut out, match st { Style::Ascii => 'V', Style::Unicode => '▼' });
        push_char(&mut out, '\n');
        assert(out@ =~= timeline_text(st, self.max_width as nat, self.data@));
        out
    }
}

} // verus!

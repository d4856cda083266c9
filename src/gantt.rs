//! Gantt chart column widths.

use vstd::prelude::*;
use crate::attrib::Attrib;
use crate::place::MAX_COORD;
use crate::render::Style;
use crate::table::push_str_chars;
use crate::text::{centre_chars, left_pad_chars, push_char, repeat};

verus! {

/// Default column width of one time slot of a Gantt chart with `cnt`
/// slots: fewer slots get wider columns.
pub open spec fn time_width(cnt: nat) -> nat {
    if cnt <= 2 {
        17
    } else if cnt == 3 {
        14
    } else if cnt == 4 {
        12
    } else if cnt == 5 {
        10
    } else if cnt == 6 {
        8
    } else if cnt == 7 {
        7
    } else if cnt == 8 {
        6
    } else if cnt == 9 || cnt == 10 {
        5
    } else {
        4
    }
}

pub fn get_time_width(cnt: usize) -> (r: usize)
    ensures
        r == time_width(cnt as nat),
{
    if cnt <= 2 {
        17
    } else if cnt == 3 {
        14
    } else if cnt == 4 {
        12
    } else if cnt == 5 {
        10
    } else if cnt == 6 {
        8
    } else if cnt == 7 {
        7
    } else if cnt == 8 {
        6
    } else if cnt == 9 || cnt == 10 {
        5
    } else {
        4
    }
}

/// A point on the time axis as the fraction `num / den` of slots.
#[derive(Clone, Copy, Debug, PartialEq, Eq, Structural)]
pub struct Ratio {
    pub num: u32,
    pub den: u32,
}

/// A task bar from `start` to `end`.
pub struct Period {
    pub task: String,
    pub start: Ratio,
    pub end: Ratio,
}

/// A Gantt chart: time slot names and task bars.
pub struct GanttDiagram {
    pub timeline: Vec<String>,
    pub period: Vec<Period>,
    pub time_width: usize,
    pub task_width: usize,
    pub attribs: Attrib,
}

/// Why a chart could not be built.
#[derive(Clone, Copy, Debug, PartialEq, Eq, Structural)]
pub enum GanttError {
    /// The task at this index does not end after it starts.
    EndNotAfterStart(usize),
    /// The task at this index ends after the last slot.
    EndBeyondTimeline(usize),
    /// The task at this index has a zero denominator.
    ZeroDenominator(usize),
    /// The chart would be wider than `MAX_COORD` columns.
    TooWide,
}

/// Chart glyphs: slot separator (0), rule (1), rule junction (2), axis
/// (3), bar start (4), bar body (5), bar end (6), slot tick (7).
pub open spec fn gantt_palette(style: Style) -> Seq<char> {
    match style {
        Style::Ascii => seq!['|', '-', '+', '|', '<', '=', '>', '.'],
        Style::Unicode => seq![' ', '─', '─', '│', '[', '━', ']', '·'],
    }
}

fn gantt_glyph(style: Style, k: usize) -> (r: char)
    requires
        k < 8,
    ensures
        r == gantt_palette(style)[k as int],
{
    match style {
        Style::Ascii => {
            if k == 0 || k == 3 {
                '|'
            } else if k == 1 {
                '-'
            } else if k == 2 {
                '+'
            } else if k == 4 {
                '<'
            } else if k == 5 {
                '='
            } else if k == 6 {
                '>'
            } else {
                '.'
            }
        },
        Style::Unicode => {
            if k == 0 {
                ' '
            } else if k == 1 || k == 2 {
                '─'
            } else if k == 3 {
                '│'
            } else if k == 4 {
                '['
            } else if k == 5 {
                '━'
            } else if k == 6 {
                ']'
            } else {
                '·'
            }
        },
    }
}

/// Column of a time point when each slot takes `tw + 1` columns.
pub open spec fn column(r: Ratio, tw: nat) -> nat {
    ((r.num as nat) * (tw + 1)) / (r.den as nat)
}

/// Cells `from .. to` of a bar line outside the bar: a tick at the last
/// column of each slot, blanks elsewhere.
pub open spec fn ticks(p: Seq<char>, from: nat, to: nat, tw: nat) -> Seq<char> {
    Seq::new((if to > from { to - from } else { 0 }) as nat, |k: int| if (from + k + 1) % (tw as int + 1) == 0 { p[7] } else { ' ' })
}

/// The line of one task.
pub open spec fn task_line(p: Seq<char>, t: Period, tw: nat, task_w: nat, n: nat) -> Seq<char> {
    let st = column(t.start, tw);
    let ed = column(t.end, tw);
    let task = t.task@;
    (if task.len() > task_w + 1 { task } else { repeat(' ', (task_w + 1 - task.len()) as nat) + task }) + seq![' ', p[3]]
        + ticks(p, 0, st, tw) + seq![p[4]] + repeat(p[5], (if ed > st + 1 { ed - st - 1 } else { 0 }) as nat) + seq![p[6]]
        + ticks(p, ed + 1, ((tw + 1) * (if n > 0 { n - 1 } else { 0 })) as nat, tw) + seq!['\n']
}

pub open spec fn head_line(p: Seq<char>, times: Seq<String>, tw: nat, k: int) -> Seq<char>
    decreases k,
{
    if k <= 0 {
        seq![]
    } else {
        let s = times[k - 1]@;
        head_line(p, times, tw, k - 1) + seq![p[0]] + (if s.len() > tw { s } else {
            repeat(' ', ((tw - s.len()) / 2) as nat) + s + repeat(' ', ((tw - s.len()) - (tw - s.len()) / 2) as nat)
        })
    }
}

pub open spec fn rule_cells(p: Seq<char>, tw: nat, k: nat) -> Seq<char>
    decreases k,
{
    if k == 0 {
        seq![]
    } else {
        rule_cells(p, tw, (k - 1) as nat) + seq![p[2]] + repeat(p[1], tw)
    }
}

pub open spec fn task_lines(p: Seq<char>, ps: Seq<Period>, tw: nat, task_w: nat, n: nat) -> Seq<char>
    decreases ps.len(),
{
    if ps.len() == 0 {
        seq![]
    } else {
        task_lines(p, ps.drop_last(), tw, task_w, n) + task_line(p, ps.last(), tw, task_w, n)
    }
}

/// Slot width: the default for the number of slots or the longest slot
/// name, whichever is larger.
pub open spec fn slot_width(g: &GanttDiagram) -> nat {
    let d = time_width(g.timeline@.len());
    if d >= g.time_width { d } else { g.time_width as nat }
}

/// The two header lines: slot names, then the rule.
pub open spec fn header(p: Seq<char>, times: Seq<String>, tw: nat, task_w: nat) -> Seq<char> {
    repeat(' ', task_w + 2) + head_line(p, times, tw, times.len() as int) + seq!['\n'] + repeat(p[1], task_w + 2)
        + rule_cells(p, tw, times.len()) + seq![p[1], '\n']
}

/// The whole chart.
pub open spec fn gantt_text(g: &GanttDiagram) -> Seq<char> {
    let p = gantt_palette(g.attribs.style);
    let tw = slot_width(g);
    let n = g.timeline@.len();
    header(p, g.timeline@, tw, g.task_width as nat) + task_lines(p, g.period@, tw, g.task_width as nat, n)
        + repeat(' ', (g.task_width + 2) as nat) + seq![p[3], '\n']
}

fn push_run(out: &mut String, c: char, n: usize)
    ensures
        final(out)@ == old(out)@ + repeat(c, n as nat),
{
    let mut i: usize = 0;
    while i < n
        invariant
            i <= n,
            out@ == old(out)@ + repeat(c, i as nat),
        decreases n - i,
    {
        push_char(out, c);
        i = i + 1;
        assert(out@ =~= old(out)@ + repeat(c, i as nat));
    }
}

fn push_ticks(out: &mut String, style: Style, from: usize, to: usize, tw: usize)
    requires
        to <= MAX_COORD,
        tw <= MAX_COORD,
    ensures
        final(out)@ == old(out)@ + ticks(gantt_palette(style), from as nat, to as nat, tw as nat),
{
    let dot = gantt_glyph(style, 7);
    let ghost p = gantt_palette(style);
    let mut i: usize = from;
    let ghost base = out@;
    if from < to {
        while i < to
            invariant
                from <= i <= to,
                to <= MAX_COORD,
                tw <= MAX_COORD,
                dot == p[7],
                out@ == base + ticks(p, from as nat, i as nat, tw as nat),
            decreases to - i,
        {
            if (i + 1) % (tw + 1) == 0 {
                push_char(out, dot);
            } else {
                push_char(out, ' ');
            }
            i = i + 1;
            assert(out@ =~= base + ticks(p, from as nat, i as nat, tw as nat));
        }
    } else {
        assert(ticks(p, from as nat, to as nat, tw as nat) =~= Seq::<char>::empty());
        assert(out@ =~= base + ticks(p, from as nat, to as nat, tw as nat));
    }
}

impl GanttDiagram {
    pub open spec fn wf(&self) -> bool {
        let n = self.timeline@.len();
        &&& self.time_width <= MAX_COORD
        &&& self.task_width <= MAX_COORD
        &&& (slot_width(self) + 1) * n <= MAX_COORD
        &&& forall|k: int| 0 <= k < n ==> (#[trigger] self.timeline@[k])@.len() <= self.time_width
        &&& forall|k: int| 0 <= k < self.period@.len() ==> {
            let t = #[trigger] self.period@[k];
            &&& t.task@.len() <= self.task_width
            &&& t.start.den > 0 && t.end.den > 0
            &&& (t.start.num as nat) * (t.end.den as nat) < (t.end.num as nat) * (t.start.den as nat)
            &&& (t.end.num as nat) <= n * (t.end.den as nat)
        }
    }

    /// A chart of the slots and tasks. Fails on the first task with a zero
    /// denominator, or not ending after it starts, or ending after the
    /// last slot; or when the chart would be too wide.
    pub fn new(timeline: Vec<String>, period: Vec<Period>, attribs: Attrib) -> (r: Result<GanttDiagram, GanttError>)
        ensures
            r matches Ok(g) ==> g.wf() && g.timeline@ == timeline@ && g.period@ == period@ && g.attribs == attribs,
            r matches Err(GanttError::ZeroDenominator(i)) ==> i < period@.len() && (period@[i as int].start.den == 0
                || period@[i as int].end.den == 0),
            r matches Err(GanttError::EndNotAfterStart(i)) ==> i < period@.len() && {
                let t = period@[i as int];
                (t.start.num as nat) * (t.end.den as nat) >= (t.end.num as nat) * (t.start.den as nat)
            },
            r matches Err(GanttError::EndBeyondTimeline(i)) ==> i < period@.len() && (period@[i as int].end.num as nat)
                > timeline@.len() * (period@[i as int].end.den as nat),
    {
        let n = timeline.len();
        let mut time_w: usize = 0;
        let mut k: usize = 0;
        while k < n
            invariant
                n == timeline@.len(),
                k <= n,
                time_w <= MAX_COORD,
                forall|j: int| 0 <= j < k ==> (#[trigger] timeline@[j])@.len() <= time_w,
            decreases n - k,
        {
            let len = timeline[k].as_str().unicode_len();
            if len > MAX_COORD {
                return Err(GanttError::TooWide);
            }
            if len > time_w {
                time_w = len;
            }
            k = k + 1;
        }
        let d = get_time_width(n);
        let tw = if d >= time_w { d } else { time_w };
        if n > 0 && (tw + 1) > MAX_COORD / n {
            return Err(GanttError::TooWide);
        }
        proof {
            if n > 0 {
                assert((tw + 1) * n <= (MAX_COORD / n) * n) by (nonlinear_arith)
                    requires tw + 1 <= MAX_COORD / n, n > 0;
                assert((MAX_COORD / n) * n <= MAX_COORD) by (nonlinear_arith)
                    requires n > 0;
            }
        }
        let mut task_w: usize = 0;
        let mut i: usize = 0;
        while i < period.len()
            invariant
                n == timeline@.len(),
                i <= period@.len(),
                task_w <= MAX_COORD,
                forall|j: int| 0 <= j < i ==> {
                    let t = #[trigger] period@[j];
                    &&& t.task@.len() <= task_w
                    &&& t.start.den > 0 && t.end.den > 0
                    &&& (t.start.num as nat) * (t.end.den as nat) < (t.end.num as nat) * (t.start.den as nat)
                    &&& (t.end.num as nat) <= n * (t.end.den as nat)
                },
            decreases period@.len() - i,
        {
            let t = &period[i];
            if t.start.den == 0 || t.end.den == 0 {
                return Err(GanttError::ZeroDenominator(i));
            }
            let (sn, sd, en, ed) = (t.start.num as u64, t.start.den as u64, t.end.num as u64, t.end.den as u64);
            proof {
                assert(sn * ed <= 0xffff_ffff * 0xffff_ffff) by (nonlinear_arith)
                    requires sn <= 0xffff_ffff, ed <= 0xffff_ffff;
                assert(en * sd <= 0xffff_ffff * 0xffff_ffff) by (nonlinear_arith)
                    requires en <= 0xffff_ffff, sd <= 0xffff_ffff;
            }
            let a = sn * ed;
            let b = en * sd;
            if a >= b {
                return Err(GanttError::EndNotAfterStart(i));
            }
            let n128 = n as u128;
            proof {
                assert(n128 * (ed as u128) <= 0xffff_ffff_ffff_ffff * 0xffff_ffff) by (nonlinear_arith)
                    requires n128 <= 0xffff_ffff_ffff_ffff, ed <= 0xffff_ffff;
            }
            if en as u128 > n128 * (ed as u128) {
                return Err(GanttError::EndBeyondTimeline(i));
            }
            let len = t.task.as_str().unicode_len();
            if len > MAX_COORD {
                return Err(GanttError::TooWide);
            }
            if len > task_w {
                task_w = len;
            }
            i = i + 1;
        }
        Ok(GanttDiagram { timeline, period, time_width: time_w, task_width: task_w, attribs })
    }
}

proof fn lemma_column_bound(num: nat, den: nat, n: nat, c: nat)
    requires
        0 < den,
        num <= n * den,
    ensures
        (num * c) / den <= n * c,
{
    assert(num * c <= den * (n * c)) by (nonlinear_arith)
        requires num <= n * den;
    vstd::arithmetic::div_mod::lemma_div_is_ordered((num * c) as int, (den * (n * c)) as int, den as int);
    vstd::arithmetic::div_mod::lemma_div_multiples_vanish((n * c) as int, den as int);
}

proof fn lemma_start_bound(sn: nat, sd: nat, en: nat, ed: nat, n: nat)
    requires
        0 < sd,
        0 < ed,
        sn * ed < en * sd,
        en <= n * ed,
    ensures
        sn <= n * sd,
{
    assert(en * sd <= n * ed * sd) by (nonlinear_arith)
        requires en <= n * ed;
    assert(sn * ed < n * sd * ed) by (nonlinear_arith)
        requires sn * ed < en * sd, en * sd <= n * ed * sd;
    assert(sn < n * sd) by (nonlinear_arith)
        requires sn * ed < n * sd * ed, 0 < ed;
}

fn col(r: Ratio, c: usize) -> (x: usize)
    requires
        r.den > 0,
        1 <= c <= MAX_COORD + 1,
        ((r.num as nat) * (c as nat)) / (r.den as nat) <= MAX_COORD,
    ensures
        x == column(r, (c - 1) as nat),
{
    proof {
        assert((r.num as nat) * (c as nat) <= 0xffff_ffff * (MAX_COORD + 1)) by (nonlinear_arith)
            requires r.num <= 0xffff_ffff, c <= MAX_COORD + 1;
    }
    let p = r.num as u64 * c as u64;
    (p / r.den as u64) as usize
}

#[verifier::rlimit(50)]
fn push_task(out: &mut String, style: Style, t: &Period, tw: usize, task_w: usize, n: usize)
    requires
        tw <= MAX_COORD,
        task_w <= MAX_COORD,
        (tw + 1) * n <= MAX_COORD,
        t.start.den > 0 && t.end.den > 0,
        (t.start.num as nat) * (t.end.den as nat) < (t.end.num as nat) * (t.start.den as nat),
        (t.end.num as nat) <= n * (t.end.den as nat),
    ensures
        final(out)@ == old(out)@ + task_line(gantt_palette(style), *t, tw as nat, task_w as nat, n as nat),
{
    let ghost p = gantt_palette(style);
    proof {
        lemma_start_bound(t.start.num as nat, t.start.den as nat, t.end.num as nat, t.end.den as nat, n as nat);
        lemma_column_bound(t.start.num as nat, t.start.den as nat, n as nat, (tw + 1) as nat);
        lemma_column_bound(t.end.num as nat, t.end.den as nat, n as nat, (tw + 1) as nat);
        assert(n * (tw + 1) == (tw + 1) * n) by (nonlinear_arith);
    }
    let st = col(t.start, tw + 1);
    let ed = col(t.end, tw + 1);
    proof {
        if n > 0 {
            assert((tw + 1) * (n - 1) <= (tw + 1) * n) by (nonlinear_arith)
                requires n > 0;
        }
    }
    let lim: usize = if n > 0 { (tw + 1) * (n - 1) } else { 0 };
    let ghost o0 = out@;
    let padded = left_pad_chars(t.task.as_str(), task_w + 1, ' ');
    push_str_chars(out, &padded);
    push_char(out, ' ');
    push_char(out, gantt_glyph(style, 3));
    let ghost o1 = out@;
    push_ticks(out, style, 0, st, tw);
    push_char(out, gantt_glyph(style, 4));
    let body: usize = if ed > st + 1 { ed - st - 1 } else { 0 };
    push_run(out, gantt_glyph(style, 5), body);
    push_char(out, gantt_glyph(style, 6));
    let ghost o2 = out@;
    push_ticks(out, style, ed + 1, lim, tw);
    push_char(out, '\n');
    proof {
        let task = t.task@;
        let head = (if task.len() > task_w + 1 { task } else { repeat(' ', (task_w + 1 - task.len()) as nat) + task }) + seq![' ', p[3]];
        assert(o1 =~= o0 + head);
        assert(lim == ((tw + 1) * (if n > 0 { n - 1 } else { 0 })) as nat);
    }
    assert(out@ =~= old(out)@ + task_line(p, *t, tw as nat, task_w as nat, n as nat));
}

fn push_header(out: &mut String, st: Style, times: &Vec<String>, tw: usize, task_w: usize)
    requires
        task_w <= MAX_COORD,
    ensures
        final(out)@ == old(out)@ + header(gantt_palette(st), times@, tw as nat, task_w as nat),
{
    let ghost p = gantt_palette(st);
    let n = times.len();
    push_run(out, ' ', task_w + 2);
    let ghost b1 = out@;
    let mut k: usize = 0;
    while k < n
        invariant
            n == times@.len(),
            p == gantt_palette(st),
            k <= n,
            out@ == b1 + head_line(p, times@, tw as nat, k as int),
        decreases n - k,
    {
        push_char(out, gantt_glyph(st, 0));
        let cell = centre_chars(times[k].as_str(), tw, ' ', ' ');
        push_str_chars(out, &cell);
        proof {
            assert(out@ =~= b1 + head_line(p, times@, tw as nat, k + 1));
        }
        k = k + 1;
    }
    push_char(out, '\n');
    let ghost b15 = out@;
    push_run(out, gantt_glyph(st, 1), task_w + 2);
    let ghost b2 = out@;
    let mut k: usize = 0;
    while k < n
        invariant
            n == times@.len(),
            p == gantt_palette(st),
            k <= n,
            out@ == b2 + rule_cells(p, tw as nat, k as nat),
        decreases n - k,
    {
        push_char(out, gantt_glyph(st, 2));
        push_run(out, gantt_glyph(st, 1), tw);
        proof {
            assert(out@ =~= b2 + rule_cells(p, tw as nat, (k + 1) as nat));
        }
        k = k + 1;
    }
    push_char(out, gantt_glyph(st, 1));
    push_char(out, '\n');
    assert(out@ =~= old(out)@ + header(p, times@, tw as nat, task_w as nat));
}

impl GanttDiagram {
    /// The chart as text: a header of centred slot names, a rule, one
    /// line per task with its bar between its start and end columns
    /// (ticks mark slot ends elsewhere), and a closing axis line.
    pub fn write(&self) -> (r: String)
        requires
            self.wf(),
        ensures
            r@ == gantt_text(self),
    {
        let st = self.attribs.style;
        let ghost p = gantt_palette(st);
        let n = self.timeline.len();
        let d = get_time_width(n);
        let tw = if d >= self.time_width { d } else { self.time_width };
        assert(tw == slot_width(self));
        proof {
            assert((tw + 1) * n <= MAX_COORD);
        }
        let mut out = String::new();
        push_header(&mut out, st, &self.timeline, tw, self.task_width);
        let ghost b3 = out@;
        let mut i: usize = 0;
        while i < self.period.len()
            invariant
                self.wf(),
                n == self.timeline@.len(),
                st == self.attribs.style,
                p == gantt_palette(st),
                tw == slot_width(self),
                tw <= MAX_COORD,
                i <= self.period@.len(),
                out@ == b3 + task_lines(p, self.period@.take(i as int), tw as nat, self.task_width as nat, n as nat),
            decreases self.period@.len() - i,
        {
            proof {
                assert(self.period@.take(i + 1).drop_last() =~= self.period@.take(i as int));
            }
            push_task(&mut out, st, &self.period[i], tw, self.task_width, n);
            i = i + 1;
        }
        push_run(&mut out, ' ', self.task_width + 2);
        push_char(&mut out, gantt_glyph(st, 3));
        push_char(&mut out, '\n');
        proof {
            assert(self.period@.take(i as int) =~= self.period@);
        }
        assert(out@ =~= gantt_text(self));
        out
    }
}

} // verus!

//! Padding and line-prefixing helpers on strings.

use vstd::prelude::*;
use vstd::string::{StringExecFns, StringSliceAdditionalSpecFns};

verus! {

/// Relies on String::push: appends the character at the end.
#[verifier::external_body]
pub(crate) fn push_char(s: &mut String, c: char)
    ensures
        final(s)@ == old(s)@.push(c),
{
    s.push(c);
}

/// `n` copies of `c`.
pub open spec fn repeat(c: char, n: nat) -> Seq<char> {
    Seq::new(n, |i: int| c)
}

fn push_repeat(s: &mut String, c: char, n: usize)
    ensures
        final(s)@ == old(s)@ + repeat(c, n as nat),
{
    let mut i: usize = 0;
    while i < n
        invariant
            i <= n,
            s@ == old(s)@ + repeat(c, i as nat),
        decreases n - i,
    {
        push_char(s, c);
        i = i + 1;
        assert(s@ =~= old(s)@ + repeat(c, i as nat));
    }
}

/// `s` centred in `width` columns, its length taken in bytes: the padding
/// is split in two, the left part (of `l_pad`) taking the smaller half. A
/// string longer than `width` bytes is returned as it is.
pub fn pad_string_center(s: &str, width: usize, l_pad: char, r_pad: char) -> (r: String)
    ensures
        (s.spec_bytes().len() as usize) > width ==> r@ == s@,
        (s.spec_bytes().len() as usize) <= width ==> r@ == repeat(l_pad, ((width - (s.spec_bytes().len() as usize)) / 2) as nat) + s@ + repeat(
            r_pad,
            ((width - (s.spec_bytes().len() as usize)) - (width - (s.spec_bytes().len() as usize)) / 2) as nat,
        ),
{
    let len = s.len();
    if len > width {
        return String::from_str(s);
    }
    let total = width - len;
    let left = total / 2;
    let mut r = String::new();
    push_repeat(&mut r, l_pad, left);
    r.append(s);
    push_repeat(&mut r, r_pad, total - left);
    r
}

/// `s` followed by `r_pad` up to `width`, its length taken in bytes.
pub fn pad_string_right(s: &str, width: usize, r_pad: char) -> (r: String)
    ensures
        (s.spec_bytes().len() as usize) > width ==> r@ == s@,
        (s.spec_bytes().len() as usize) <= width ==> r@ == s@ + repeat(r_pad, (width - (s.spec_bytes().len() as usize)) as nat),
{
    let len = s.len();
    if len > width {
        return String::from_str(s);
    }
    let mut r = String::from_str(s);
    push_repeat(&mut r, r_pad, width - len);
    r
}

/// `s` preceded by `l_pad` up to `width`, its length taken in bytes.
pub fn pad_string_left(s: &str, width: usize, l_pad: char) -> (r: String)
    ensures
        (s.spec_bytes().len() as usize) > width ==> r@ == s@,
        (s.spec_bytes().len() as usize) <= width ==> r@ == repeat(l_pad, (width - (s.spec_bytes().len() as usize)) as nat) + s@,
{
    let len = s.len();
    if len > width {
        return String::from_str(s);
    }
    let mut r = String::new();
    push_repeat(&mut r, l_pad, width - len);
    r.append(s);
    r
}

/// `s` centred in `width` columns counted in characters, the left part
/// of the padding the smaller half; longer strings are kept as they are.
pub(crate) fn centre_chars(s: &str, width: usize, l_pad: char, r_pad: char) -> (r: String)
    ensures
        s@.len() > width ==> r@ == s@,
        s@.len() <= width ==> r@ == repeat(l_pad, ((width - s@.len()) / 2) as nat) + s@ + repeat(
            r_pad,
            ((width - s@.len()) - (width - s@.len()) / 2) as nat,
        ),
{
    let len = s.unicode_len();
    if len > width {
        return String::from_str(s);
    }
    let total = width - len;
    let left = total / 2;
    let mut r = String::new();
    push_repeat(&mut r, l_pad, left);
    r.append(s);
    push_repeat(&mut r, r_pad, total - left);
    r
}

/// `s` preceded by `l_pad` up to `width` characters.
pub(crate) fn left_pad_chars(s: &str, width: usize, l_pad: char) -> (r: String)
    ensures
        s@.len() > width ==> r@ == s@,
        s@.len() <= width ==> r@ == repeat(l_pad, (width - s@.len()) as nat) + s@,
{
    let len = s.unicode_len();
    if len > width {
        return String::from_str(s);
    }
    let mut r = String::new();
    push_repeat(&mut r, l_pad, width - len);
    r.append(s);
    r
}

/// A line without its carriage return, if it ends with one.
pub open spec fn strip_cr(l: Seq<char>) -> Seq<char> {
    if l.len() > 0 && l.last() == '\r' {
        l.drop_last()
    } else {
        l
    }
}

/// Reading `s` left to right: the lines ended so far and the current one.
pub open spec fn scan_lines(s: Seq<char>) -> (Seq<Seq<char>>, Seq<char>)
    decreases s.len(),
{
    if s.len() == 0 {
        (seq![], seq![])
    } else {
        let (ls, cur) = scan_lines(s.drop_last());
        if s.last() == '\n' {
            (ls.push(strip_cr(cur)), seq![])
        } else {
            (ls, cur.push(s.last()))
        }
    }
}

/// The lines of `s`: split at each line feed, a carriage return before
/// it dropped; a final line feed ends the last line rather than starting
/// an empty one.
pub open spec fn lines(s: Seq<char>) -> Seq<Seq<char>> {
    let (ls, cur) = scan_lines(s);
    if cur.len() > 0 {
        ls.push(cur)
    } else {
        ls
    }
}

/// The lines, each preceded by `p`, joined by line feeds.
pub open spec fn prefixed(ls: Seq<Seq<char>>, p: Seq<char>) -> Seq<char>
    decreases ls.len(),
{
    if ls.len() == 0 {
        seq![]
    } else if ls.len() == 1 {
        p + ls[0]
    } else {
        prefixed(ls.drop_last(), p) + seq!['\n'] + p + ls.last()
    }
}

fn push_line(out: &mut String, line: &Vec<char>, prefix: &str, first: bool, Ghost(ls): Ghost<Seq<Seq<char>>>)
    requires
        old(out)@ == prefixed(ls, prefix@),
        first == (ls.len() == 0),
    ensures
        final(out)@ == prefixed(ls.push(line@), prefix@),
{
    if !first {
        push_char(out, '\n');
    }
    out.append(prefix);
    let mut i: usize = 0;
    let ghost base = out@;
    while i < line.len()
        invariant
            i <= line@.len(),
            out@ == base + line@.take(i as int),
        decreases line@.len() - i,
    {
        push_char(out, line[i]);
        i = i + 1;
        assert(out@ =~= base + line@.take(i as int));
    }
    proof {
        let nl = ls.push(line@);
        assert(nl.drop_last() =~= ls);
        assert(line@.take(line@.len() as int) =~= line@);
        if ls.len() == 0 {
            assert(out@ =~= prefix@ + line@);
        } else {
            assert(out@ =~= prefixed(ls, prefix@) + seq!['\n'] + prefix@ + line@);
        }
    }
}

/// Puts `prefix` before every line of `input`.
pub fn add_prefix(input: String, prefix: &str) -> (r: String)
    ensures
        r@ == prefixed(lines(input@), prefix@),
{
    let s = input.as_str();
    let n = s.unicode_len();
    let mut out = String::new();
    let mut cur: Vec<char> = Vec::new();
    let mut count: usize = 0;
    let mut i: usize = 0;
    while i < n
        invariant
            n == input@.len(),
            s@ == input@,
            i <= n,
            scan_lines(input@.take(i as int)).1 == cur@,
            out@ == prefixed(scan_lines(input@.take(i as int)).0, prefix@),
            count as int == scan_lines(input@.take(i as int)).0.len(),
            count <= i,
        decreases n - i,
    {
        let c = s.get_char(i);
        proof {
            assert(input@.take(i + 1).drop_last() =~= input@.take(i as int));
        }
        if c == '\n' {
            if cur.len() > 0 && cur[cur.len() - 1] == '\r' {
                cur.pop();
            }
            proof {
                let t = scan_lines(input@.take(i as int)).1;
                assert(cur@ == strip_cr(t)) by {
                    if t.len() > 0 && t.last() == '\r' {
                        assert(cur@ =~= t.drop_last());
                    }
                }
            }
            push_line(&mut out, &cur, prefix, count == 0, Ghost(scan_lines(input@.take(i as int)).0));
            cur = Vec::new();
            count = count + 1;
        } else {
            cur.push(c);
        }
        i = i + 1;
    }
    proof {
        assert(input@.take(n as int) =~= input@);
    }
    if cur.len() > 0 {
        push_line(&mut out, &cur, prefix, count == 0, Ghost(scan_lines(input@).0));
    }
    out
}

} // verus!

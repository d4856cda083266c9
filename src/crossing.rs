//! Counting crossings between the connector lines of one boundary.

use vstd::prelude::*;

verus! {

/// Two connector lines, each given by its (upper, lower) position pair,
/// cross when their end positions are ordered oppositely.
pub open spec fn crosses(a: (int, int), b: (int, int)) -> bool {
    (a.0 - b.0) * (a.1 - b.1) < 0
}

pub open spec fn as_pair(p: (usize, usize)) -> (int, int) {
    (p.0 as int, p.1 as int)
}

/// Number of lines among `s` that cross `p`.
pub open spec fn crossing_with(s: Seq<(usize, usize)>, p: (usize, usize)) -> nat
    decreases s.len(),
{
    if s.len() == 0 {
        0
    } else {
        crossing_with(s.drop_last(), p) + if crosses(as_pair(s.last()), as_pair(p)) {
            1nat
        } else {
            0nat
        }
    }
}

/// Number of unordered pairs of lines in `s` that cross.
pub open spec fn crossing_count(s: Seq<(usize, usize)>) -> nat
    decreases s.len(),
{
    if s.len() == 0 {
        0
    } else {
        crossing_count(s.drop_last()) + crossing_with(s.drop_last(), s.last())
    }
}

proof fn lemma_crosses_by_order(a: (int, int), b: (int, int))
    ensures
        crosses(a, b) == ((a.0 < b.0 && a.1 > b.1) || (a.0 > b.0 && a.1 < b.1)),
{
    let d0 = a.0 - b.0;
    let d1 = a.1 - b.1;
    if d0 < 0 && d1 > 0 {
        assert(d0 * d1 < 0) by (nonlinear_arith)
            requires d0 < 0 && d1 > 0;
    } else if d0 > 0 && d1 < 0 {
        assert(d0 * d1 < 0) by (nonlinear_arith)
            requires d0 > 0 && d1 < 0;
    } else {
        assert(d0 * d1 >= 0) by (nonlinear_arith)
            requires !(d0 < 0 && d1 > 0) && !(d0 > 0 && d1 < 0);
    }
}

proof fn lemma_crossing_with_bound(s: Seq<(usize, usize)>, p: (usize, usize))
    ensures
        crossing_with(s, p) <= s.len(),
    decreases s.len(),
{
    if s.len() > 0 {
        lemma_crossing_with_bound(s.drop_last(), p);
    }
}

proof fn lemma_crossing_count_bound(s: Seq<(usize, usize)>)
    ensures
        crossing_count(s) <= s.len() * s.len(),
    decreases s.len(),
{
    if s.len() > 0 {
        let k = s.len() - 1;
        lemma_crossing_count_bound(s.drop_last());
        lemma_crossing_with_bound(s.drop_last(), s.last());
        assert(k * k + k <= (k + 1) * (k + 1)) by (nonlinear_arith)
            requires k >= 0;
    }
}

/// Whether the lines `a` and `b` cross.
pub fn has_crossing(a: (usize, usize), b: (usize, usize)) -> (r: bool)
    ensures
        r == crosses(as_pair(a), as_pair(b)),
{
    proof {
        lemma_crosses_by_order(as_pair(a), as_pair(b));
    }
    (a.0 < b.0 && a.1 > b.1) || (a.0 > b.0 && a.1 < b.1)
}

/// Number of crossing pairs among `lines`.
pub fn crossings(lines: &Vec<(usize, usize)>) -> (r: u64)
    requires
        lines@.len() <= 0xffff_ffff,
    ensures
        r == crossing_count(lines@),
{
    let mut cnt: u64 = 0;
    let mut right: usize = 0;
    while right < lines.len()
        invariant
            right <= lines@.len() <= 0xffff_ffff,
            cnt == crossing_count(lines@.take(right as int)),
        decreases lines@.len() - right,
    {
        let mut left: usize = 0;
        let mut row: u64 = 0;
        while left < right
            invariant
                left <= right < lines@.len() <= 0xffff_ffff,
                row == crossing_with(lines@.take(left as int), lines@[right as int]),
                cnt == crossing_count(lines@.take(right as int)),
            decreases right - left,
        {
            proof {
                lemma_crossing_with_bound(lines@.take(left as int), lines@[right as int]);
                assert(lines@.take(left + 1).drop_last() =~= lines@.take(left as int));
            }
            if has_crossing(lines[left], lines[right]) {
                row = row + 1;
            }
            left = left + 1;
        }
        proof {
            let t = lines@.take(right + 1);
            assert(t.drop_last() =~= lines@.take(right as int));
            lemma_crossing_count_bound(t);
            assert((right + 1) * (right + 1) <= 0xffff_ffff * 0xffff_ffff) by (nonlinear_arith)
                requires right + 1 <= 0xffff_ffff;
        }
        cnt = cnt + row;
        right = right + 1;
    }
    assert(lines@.take(lines@.len() as int) =~= lines@);
    cnt
}

} // verus!

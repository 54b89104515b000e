//! Duplicate-free enumeration of the size-k sub-bags of a bounded bag.
//!
//! A bag of pickups is a count vector over the 25 categories. The
//! enumerator walks every count vector bounded by the held counts with a
//! fixed total, each exactly once, in strictly decreasing lexicographic
//! order: it starts from the greedy, lexicographically largest vector and
//! each advance step moves to the immediate lexicographic predecessor.

use vstd::prelude::*;
use vstd::pervasive::VecAdditionalExecFns;
use crate::pickup::Pickup;

verus! {

/// Sum of a count vector.
pub open spec fn csum(s: Seq<u8>) -> int
    decreases s.len(),
{
    if s.len() == 0 {
        0int
    } else {
        csum(s.drop_last()) + s.last()
    }
}

/// Sum of the counts in `[i, j)`.
pub open spec fn csum_sub(s: Seq<u8>, i: int, j: int) -> int {
    csum(s.subrange(i, j))
}

/// A size-`k` sub-bag of `h`: pointwise bounded counts with total `k`.
pub open spec fn valid_pick(c: Seq<u8>, h: Seq<u8>, k: int) -> bool {
    &&& c.len() == 25
    &&& forall|i: int| 0 <= i < 25 ==> c[i] <= h[i]
    &&& csum(c) == k
}

/// Lexicographic strictly-less, read from index `i` upward.
pub open spec fn lex_lt_from(a: Seq<u8>, b: Seq<u8>, i: int) -> bool
    decreases 25 - i,
{
    if i < 0 || i >= 25 {
        false
    } else if a[i] < b[i] {
        true
    } else if a[i] > b[i] {
        false
    } else {
        lex_lt_from(a, b, i + 1)
    }
}

/// Lexicographic strictly-less over whole count vectors.
pub open spec fn lex_lt(a: Seq<u8>, b: Seq<u8>) -> bool {
    lex_lt_from(a, b, 0)
}

/// Greedy fill over `[i, 25)`: each position takes as much of the budget as
/// its bound allows, lowest ordinal first. This is the lexicographically
/// largest suffix with the given budget.
pub open spec fn greedy_fill(h: Seq<u8>, b: int, i: int) -> Seq<u8>
    decreases 25 - i,
{
    if i < 0 || i >= 25 {
        Seq::empty()
    } else {
        let c = if (h[i] as int) < b {
            h[i] as int
        } else if b >= 0 {
            b
        } else {
            0int
        };
        seq![c as u8] + greedy_fill(h, b - c, i + 1)
    }
}

/// The downward scan for the advance step: `inc` carries the least
/// increasable position strictly above `p` (or -1). The result is the donor
/// and receiver pair, or (-1, -1) when the walk is exhausted.
pub open spec fn scan_pair(c: Seq<u8>, h: Seq<u8>, p: int, inc: int) -> (int, int)
    decreases p + 1,
{
    if p < 0 {
        (-1int, -1int)
    } else if inc >= 0 && c[p] > 0 {
        (p, inc)
    } else {
        let inc2 = if c[p] < h[p] {
            p
        } else {
            inc
        };
        scan_pair(c, h, p - 1, inc2)
    }
}

/// The advance step's donor and receiver for the current vector.
pub open spec fn donor_pair(c: Seq<u8>, h: Seq<u8>) -> (int, int) {
    scan_pair(c, h, 24, -1)
}

/// The immediate lexicographic predecessor: one unit leaves the donor `t2`,
/// and the positions from the receiver `t1` upward are refilled greedily
/// with everything they held plus that unit.
pub open spec fn next_vector(c: Seq<u8>, h: Seq<u8>, t2: int, t1: int) -> Seq<u8> {
    let dec = c.update(t2, (c[t2] - 1) as u8);
    dec.take(t1) + greedy_fill(h, csum_sub(c, t1, 25) + 1, t1)
}

// ------------------------------------------------------------------
// sum lemmas

pub proof fn lemma_csum_nonneg(s: Seq<u8>)
    ensures
        csum(s) >= 0,
    decreases s.len(),
{
    if s.len() > 0 {
        lemma_csum_nonneg(s.drop_last());
    }
}

/// Sums concatenate.
pub proof fn lemma_csum_concat(a: Seq<u8>, b: Seq<u8>)
    ensures
        csum(a + b) == csum(a) + csum(b),
    decreases b.len(),
{
    if b.len() == 0 {
        assert(a + b =~= a);
    } else {
        lemma_csum_concat(a, b.drop_last());
        assert((a + b).drop_last() =~= a + b.drop_last());
        assert((a + b).last() == b.last());
    }
}

/// A subrange splits at any midpoint.
pub proof fn lemma_csum_split(s: Seq<u8>, a: int, b: int, c: int)
    requires
        0 <= a <= b <= c <= s.len(),
    ensures
        csum_sub(s, a, c) == csum_sub(s, a, b) + csum_sub(s, b, c),
{
    assert(s.subrange(a, c) =~= s.subrange(a, b) + s.subrange(b, c));
    lemma_csum_concat(s.subrange(a, b), s.subrange(b, c));
}

/// Pointwise smaller counts give a smaller sum; a strict position makes the
/// whole sum strictly smaller.
pub proof fn lemma_csum_pointwise(x: Seq<u8>, y: Seq<u8>)
    requires
        x.len() == y.len(),
        forall|i: int| 0 <= i < x.len() ==> x[i] <= y[i],
    ensures
        csum(x) <= csum(y),
        (exists|i: int| 0 <= i < x.len() && x[i] < y[i]) ==> csum(x) < csum(y),
    decreases x.len(),
{
    if x.len() > 0 {
        assert(forall|i: int|
            0 <= i < x.drop_last().len() ==> x.drop_last()[i] <= y.drop_last()[i]);
        lemma_csum_pointwise(x.drop_last(), y.drop_last());
        if exists|i: int| 0 <= i < x.len() && x[i] < y[i] {
            let i = choose|i: int| 0 <= i < x.len() && x[i] < y[i];
            if i == x.len() - 1 {
            } else {
                assert(x.drop_last()[i] < y.drop_last()[i]);
            }
        }
    }
}

/// Sum of a one-element vector.
pub proof fn lemma_csum_single(x: u8)
    ensures
        csum(seq![x]) == x,
{
    let q = seq![x];
    assert(q.len() == 1);
    assert(q.last() == x);
    assert(q.drop_last() =~= Seq::<u8>::empty());
    assert(csum(q.drop_last()) == 0);
}

/// Sum after changing one entry.
pub proof fn lemma_csum_update(s: Seq<u8>, i: int, v: u8)
    requires
        0 <= i < s.len(),
    ensures
        csum(s.update(i, v)) == csum(s) - s[i] + v,
    decreases s.len(),
{
    if i == s.len() - 1 {
        assert(s.update(i, v).drop_last() =~= s.drop_last());
        assert(s.update(i, v).last() == v);
    } else {
        assert(s.update(i, v).drop_last() =~= s.drop_last().update(i, v));
        assert(s.update(i, v).last() == s.last());
        lemma_csum_update(s.drop_last(), i, v);
    }
}

/// One entry never exceeds the sum of its range.
pub proof fn lemma_csum_element(s: Seq<u8>, a: int, b: int, i: int)
    requires
        0 <= a <= i < b <= s.len(),
    ensures
        s[i] <= csum_sub(s, a, b),
{
    lemma_csum_split(s, a, i, b);
    lemma_csum_split(s, i, i + 1, b);
    assert(s.subrange(i, i + 1) =~= seq![s[i]]);
    lemma_csum_single(s[i]);
    lemma_csum_nonneg(s.subrange(a, i));
    lemma_csum_nonneg(s.subrange(i + 1, b));
}

// ------------------------------------------------------------------
// lexicographic order lemmas

/// Nothing is below itself.
pub proof fn lemma_lex_irrefl(a: Seq<u8>, i: int)
    ensures
        !lex_lt_from(a, a, i),
    decreases 25 - i,
{
    if 0 <= i < 25 {
        lemma_lex_irrefl(a, i + 1);
    }
}

/// The order is transitive.
pub proof fn lemma_lex_trans(a: Seq<u8>, b: Seq<u8>, c: Seq<u8>, i: int)
    requires
        lex_lt_from(a, b, i),
        lex_lt_from(b, c, i),
    ensures
        lex_lt_from(a, c, i),
    decreases 25 - i,
{
    if 0 <= i < 25 {
        if a[i] == b[i] && b[i] == c[i] {
            lemma_lex_trans(a, b, c, i + 1);
        }
    }
}

/// Distinct vectors are ordered one way or the other.
pub proof fn lemma_lex_total(a: Seq<u8>, b: Seq<u8>, i: int)
    requires
        a.len() == 25,
        b.len() == 25,
        0 <= i <= 25,
        forall|j: int| 0 <= j < i ==> a[j] == b[j],
    ensures
        a == b || lex_lt_from(a, b, i) || lex_lt_from(b, a, i),
    decreases 25 - i,
{
    if i == 25 {
        assert(a =~= b);
    } else {
        if a[i] == b[i] {
            lemma_lex_total(a, b, i + 1);
            if !(a == b || lex_lt_from(a, b, i + 1) || lex_lt_from(b, a, i + 1)) {
            }
        }
    }
}

/// A first difference at `t` below means strictly less from any earlier
/// index.
pub proof fn lemma_lex_firstdiff(a: Seq<u8>, b: Seq<u8>, i: int, t: int)
    requires
        0 <= i <= t < 25,
        forall|j: int| i <= j < t ==> a[j] == b[j],
        a[t] < b[t],
    ensures
        lex_lt_from(a, b, i),
    decreases t - i,
{
    if i < t {
        lemma_lex_firstdiff(a, b, i + 1, t);
    }
}

/// Strictly-less from `i` yields a first difference.
pub proof fn lemma_lex_witness(a: Seq<u8>, b: Seq<u8>, i: int) -> (t: int)
    requires
        lex_lt_from(a, b, i),
        0 <= i,
    ensures
        i <= t < 25,
        forall|j: int| i <= j < t ==> a[j] == b[j],
        a[t] < b[t],
    decreases 25 - i,
{
    if a[i] < b[i] {
        i
    } else {
        let t = lemma_lex_witness(a, b, i + 1);
        t
    }
}

/// Agreement below `m` moves the comparison start there.
pub proof fn lemma_lex_shift(a: Seq<u8>, b: Seq<u8>, i: int, m: int)
    requires
        0 <= i <= m <= 25,
        forall|j: int| i <= j < m ==> a[j] == b[j],
    ensures
        lex_lt_from(a, b, i) == lex_lt_from(a, b, m),
    decreases m - i,
{
    if i < m {
        lemma_lex_shift(a, b, i + 1, m);
    }
}

/// If `a` dominates `d` pointwise on `[i, t)` and is not below it from `t`,
/// it is not below it from `i` either.
pub proof fn lemma_lex_dominate(a: Seq<u8>, d: Seq<u8>, i: int, t: int)
    requires
        0 <= i <= t <= 25,
        forall|j: int| i <= j < t ==> a[j] >= d[j],
        !lex_lt_from(a, d, t),
    ensures
        !lex_lt_from(a, d, i),
    decreases t - i,
{
    if i < t {
        lemma_lex_dominate(a, d, i + 1, t);
    }
}

// ------------------------------------------------------------------
// greedy lemmas

/// Shape of the greedy fill: its length, bounds and total.
pub proof fn lemma_greedy_props(h: Seq<u8>, b: int, i: int)
    requires
        h.len() == 25,
        0 <= i <= 25,
        b >= 0,
    ensures
        greedy_fill(h, b, i).len() == 25 - i,
        forall|j: int|
            0 <= j < 25 - i ==> (#[trigger] greedy_fill(h, b, i)[j]) <= h[i + j],
        csum(greedy_fill(h, b, i)) == if b <= csum_sub(h, i, 25) {
            b
        } else {
            csum_sub(h, i, 25)
        },
    decreases 25 - i,
{
    if i == 25 {
        assert(h.subrange(25, 25) =~= Seq::<u8>::empty());
    } else {
        let c = if (h[i] as int) < b {
            h[i] as int
        } else {
            b
        };
        lemma_greedy_props(h, b - c, i + 1);
        let g = greedy_fill(h, b, i);
        let rest = greedy_fill(h, b - c, i + 1);
        assert(g =~= seq![c as u8] + rest);
        lemma_csum_concat(seq![c as u8], rest);
        lemma_csum_single(c as u8);
        lemma_csum_split(h, i, i + 1, 25);
        assert(h.subrange(i, i + 1) =~= seq![h[i]]);
        lemma_csum_single(h[i]);
        lemma_csum_nonneg(h.subrange(i + 1, 25));
        assert forall|j: int| 0 <= j < 25 - i implies (#[trigger] g[j]) <= h[i + j] by {
            if j > 0 {
                assert(g[j] == rest[j - 1]);
            }
        }
    }
}

/// The greedy fill is the lexicographic maximum: no vector whose suffix
/// respects the bounds and the budget lies strictly above it.
pub proof fn lemma_greedy_is_max(h: Seq<u8>, a: Seq<u8>, d: Seq<u8>, b: int, i: int)
    requires
        h.len() == 25,
        a.len() == 25,
        d.len() == 25,
        0 <= i <= 25,
        b >= 0,
        a.subrange(i, 25) == greedy_fill(h, b, i),
        forall|j: int| i <= j < 25 ==> d[j] <= h[j],
        csum_sub(d, i, 25) <= b,
    ensures
        !lex_lt_from(a, d, i),
    decreases 25 - i,
{
    if i < 25 {
        let c = if (h[i] as int) < b {
            h[i] as int
        } else {
            b
        };
        let rest = greedy_fill(h, b - c, i + 1);
        assert(a.subrange(i, 25)[0] == a[i]);
        assert(a[i] == c);
        // d[i] is at most both h[i] and the budget
        lemma_csum_element(d, i, 25, i);
        lemma_csum_nonneg(d.subrange(i, 25));
        assert(d[i] <= c) by {
            lemma_csum_split(d, i, i + 1, 25);
            lemma_csum_nonneg(d.subrange(i + 1, 25));
            assert(d.subrange(i, i + 1) =~= seq![d[i]]);
            lemma_csum_single(d[i]);
        }
        if a[i] == d[i] {
            lemma_greedy_props(h, b - c, i + 1);
            assert(a.subrange(i + 1, 25) =~= a.subrange(i, 25).subrange(1, 25 - i));
            assert(a.subrange(i, 25).subrange(1, 25 - i) =~= rest) by {
                assert(a.subrange(i, 25) =~= seq![c as u8] + rest);
            }
            assert(csum_sub(d, i + 1, 25) <= b - c) by {
                lemma_csum_split(d, i, i + 1, 25);
                assert(d.subrange(i, i + 1) =~= seq![d[i]]);
                lemma_csum_single(d[i]);
            }
            lemma_greedy_is_max(h, a, d, b - c, i + 1);
        }
    }
}

// ------------------------------------------------------------------
// the advance step's combinatorics

/// First index in `[lo, hi)` where two vectors differ, or `hi`.
proof fn find_first_diff(a: Seq<u8>, b: Seq<u8>, lo: int, hi: int) -> (j: int)
    requires
        0 <= lo <= hi <= 25,
        a.len() == 25,
        b.len() == 25,
    ensures
        lo <= j <= hi,
        forall|r: int| lo <= r < j ==> a[r] == b[r],
        j < hi ==> a[j] != b[j],
    decreases hi - lo,
{
    if lo == hi {
        lo
    } else if a[lo] != b[lo] {
        lo
    } else {
        find_first_diff(a, b, lo + 1, hi)
    }
}

/// What the downward scan guarantees about the pair it returns.
proof fn lemma_scan_props(c: Seq<u8>, h: Seq<u8>, p: int, inc: int)
    requires
        c.len() == 25,
        h.len() == 25,
        -1 <= p < 25,
        -1 <= inc < 25,
        forall|i: int| 0 <= i < 25 ==> c[i] <= h[i],
        inc >= 0 ==> p < inc && c[inc] < h[inc] && (forall|r: int| p < r < inc ==> c[r] == h[r]),
        inc == -1 ==> (forall|r: int| p < r < 25 ==> c[r] == h[r]),
        forall|q: int|
            p < q < 25 && c[q] > 0 ==> (forall|r: int| q < r < 25 ==> c[r] == h[r]),
    ensures
        ({
            let t2 = scan_pair(c, h, p, inc).0;
            let t1 = scan_pair(c, h, p, inc).1;
            &&& (t2 < 0 ==> (forall|q: int|
                0 <= q < 25 && c[q] > 0 ==> (forall|r: int| q < r < 25 ==> c[r] == h[r])))
            &&& (t2 >= 0 ==> 0 <= t2 < t1 < 25 && c[t2] > 0 && c[t1] < h[t1])
            &&& (t2 >= 0 ==> (forall|r: int| t2 < r < t1 ==> c[r] == h[r]))
            &&& (t2 >= 0 ==> (forall|q: int|
                t2 < q < 25 && c[q] > 0 ==> (forall|r: int| q < r < 25 ==> c[r] == h[r])))
        }),
    decreases p + 1,
{
    if p < 0 {
    } else if inc >= 0 && c[p] > 0 {
    } else {
        let inc2 = if c[p] < h[p] {
            p
        } else {
            inc
        };
        assert(c[p] < h[p] || c[p] == h[p]);
        if c[p] > 0 {
            assert(!(inc >= 0));
        }
        lemma_scan_props(c, h, p - 1, inc2);
    }
}

/// The donor pair of a bounded vector, unwrapped.
proof fn lemma_donor(c: Seq<u8>, h: Seq<u8>)
    requires
        c.len() == 25,
        h.len() == 25,
        forall|i: int| 0 <= i < 25 ==> c[i] <= h[i],
    ensures
        ({
            let t2 = donor_pair(c, h).0;
            let t1 = donor_pair(c, h).1;
            &&& (t2 < 0 ==> (forall|q: int|
                0 <= q < 25 && c[q] > 0 ==> (forall|r: int| q < r < 25 ==> c[r] == h[r])))
            &&& (t2 >= 0 ==> 0 <= t2 < t1 < 25 && c[t2] > 0 && c[t1] < h[t1])
            &&& (t2 >= 0 ==> (forall|r: int| t2 < r < t1 ==> c[r] == h[r]))
            &&& (t2 >= 0 ==> (forall|q: int|
                t2 < q < 25 && c[q] > 0 ==> (forall|r: int| q < r < 25 ==> c[r] == h[r])))
        }),
{
    lemma_scan_props(c, h, 24, -1);
}

/// A vector that sits below one whose counts above the first difference are
/// all full carries strictly fewer units in total.
proof fn lemma_suffix_full_smaller(c: Seq<u8>, h: Seq<u8>, d: Seq<u8>, i: int)
    requires
        c.len() == 25,
        h.len() == 25,
        d.len() == 25,
        forall|j: int| 0 <= j < 25 ==> d[j] <= h[j],
        0 <= i < 25,
        forall|j: int| 0 <= j < i ==> d[j] == c[j],
        d[i] < c[i],
        forall|r: int| i < r < 25 ==> c[r] == h[r],
    ensures
        csum(d) < csum(c),
{
    assert(d.subrange(0, i) =~= c.subrange(0, i));
    assert(forall|j: int|
        0 <= j < d.subrange(i, 25).len() ==> d.subrange(i, 25)[j] <= c.subrange(i, 25)[j]);
    assert(d.subrange(i, 25)[0] < c.subrange(i, 25)[0]);
    lemma_csum_pointwise(d.subrange(i, 25), c.subrange(i, 25));
    lemma_csum_split(c, 0, i, 25);
    lemma_csum_split(d, 0, i, 25);
    assert(c.subrange(0, 25) =~= c);
    assert(d.subrange(0, 25) =~= d);
}

/// The advance step's result is a valid pick and strictly below the current
/// vector.
proof fn lemma_next_valid(c: Seq<u8>, h: Seq<u8>, k: int)
    requires
        h.len() == 25,
        valid_pick(c, h, k),
        donor_pair(c, h).0 >= 0,
    ensures
        valid_pick(next_vector(c, h, donor_pair(c, h).0, donor_pair(c, h).1), h, k),
        lex_lt(next_vector(c, h, donor_pair(c, h).0, donor_pair(c, h).1), c),
    decreases 0int,
{
    lemma_donor(c, h);
    let t2 = donor_pair(c, h).0;
    let t1 = donor_pair(c, h).1;
    let dec = c.update(t2, (c[t2] - 1) as u8);
    let budget = csum_sub(c, t1, 25) + 1;
    let g = greedy_fill(h, budget, t1);
    let n = next_vector(c, h, t2, t1);
    lemma_csum_nonneg(c.subrange(t1, 25));
    lemma_greedy_props(h, budget, t1);
    assert(budget <= csum_sub(h, t1, 25)) by {
        assert(forall|j: int|
            0 <= j < c.subrange(t1, 25).len() ==> c.subrange(t1, 25)[j]
                <= h.subrange(t1, 25)[j]);
        assert(c.subrange(t1, 25)[0] < h.subrange(t1, 25)[0]);
        lemma_csum_pointwise(c.subrange(t1, 25), h.subrange(t1, 25));
    }
    assert(csum(g) == budget);
    assert(n.len() == 25) by {
        assert(dec.take(t1).len() == t1);
    }
    assert forall|i: int| 0 <= i < 25 implies n[i] <= h[i] by {
        if i < t1 {
            assert(n[i] == dec[i]);
        } else {
            assert(n[i] == g[i - t1]);
            assert(g[i - t1] <= h[t1 + (i - t1)]);
        }
    }
    assert(csum(n) == k) by {
        lemma_csum_concat(dec.take(t1), g);
        assert(dec.take(t1) =~= c.subrange(0, t1).update(t2, (c[t2] - 1) as u8));
        lemma_csum_update(c.subrange(0, t1), t2, (c[t2] - 1) as u8);
        lemma_csum_split(c, 0, t1, 25);
        assert(c.subrange(0, 25) =~= c);
    }
    assert(lex_lt(n, c)) by {
        assert(forall|j: int| 0 <= j < t2 ==> n[j] == c[j]);
        assert(n[t2] == c[t2] - 1);
        lemma_lex_firstdiff(n, c, 0, t2);
    }
}

/// Nothing valid lies strictly between the advance step's result and the
/// current vector: the step lands on the immediate predecessor.
proof fn lemma_next_immediate(c: Seq<u8>, h: Seq<u8>, k: int, d: Seq<u8>)
    requires
        h.len() == 25,
        valid_pick(c, h, k),
        valid_pick(d, h, k),
        donor_pair(c, h).0 >= 0,
        lex_lt(d, c),
    ensures
        d == next_vector(c, h, donor_pair(c, h).0, donor_pair(c, h).1) || lex_lt(
            d,
            next_vector(c, h, donor_pair(c, h).0, donor_pair(c, h).1),
        ),
{
    lemma_donor(c, h);
    lemma_next_valid(c, h, k);
    let t2 = donor_pair(c, h).0;
    let t1 = donor_pair(c, h).1;
    let dec = c.update(t2, (c[t2] - 1) as u8);
    let budget = csum_sub(c, t1, 25) + 1;
    let g = greedy_fill(h, budget, t1);
    let n = next_vector(c, h, t2, t1);
    lemma_csum_nonneg(c.subrange(t1, 25));
    lemma_greedy_props(h, budget, t1);
    assert(budget <= csum_sub(h, t1, 25)) by {
        assert(forall|j: int|
            0 <= j < c.subrange(t1, 25).len() ==> c.subrange(t1, 25)[j]
                <= h.subrange(t1, 25)[j]);
        assert(c.subrange(t1, 25)[0] < h.subrange(t1, 25)[0]);
        lemma_csum_pointwise(c.subrange(t1, 25), h.subrange(t1, 25));
    }
    assert(csum(g) == budget);
    let i = lemma_lex_witness(d, c, 0);
    if i > t2 {
        assert(c[i] > 0);
        assert(forall|r: int| i < r < 25 ==> c[r] == h[r]);
        lemma_suffix_full_smaller(c, h, d, i);
    } else if i < t2 {
        assert(n[i] == dec[i]);
        assert(n[i] == c[i]);
        assert(forall|j: int| 0 <= j < i ==> n[j] == c[j] && c[j] == d[j]);
        lemma_lex_firstdiff(d, n, 0, i);
    } else {
        // i == t2
        assert(n[t2] == c[t2] - 1);
        if d[t2] < n[t2] {
            assert(forall|j: int| 0 <= j < t2 ==> n[j] == c[j] && c[j] == d[j]);
            lemma_lex_firstdiff(d, n, 0, t2);
        } else {
            assert(d[t2] == n[t2]);
            // compare d and n across (t2, t1)
            assert(forall|j: int| t2 < j < t1 ==> n[j] == c[j] && c[j] == h[j]);
            assert(forall|j: int| t2 < j < t1 ==> d[j] <= n[j]);
            let j0 = find_first_diff(d, n, t2 + 1, t1);
            if j0 < t1 {
                // d drops below n first: d is strictly smaller
                assert(d[j0] < n[j0]);
                assert(forall|j: int| 0 <= j < j0 ==> d[j] == n[j]) by {
                    assert(forall|j: int| 0 <= j < t2 ==> d[j] == c[j] && c[j] == n[j]);
                }
                lemma_lex_firstdiff(d, n, 0, j0);
            } else {
                // d equals n up to t1; the greedy suffix is maximal
                assert(forall|j: int| 0 <= j < t1 ==> d[j] == n[j]) by {
                    assert(forall|j: int| 0 <= j < t2 ==> d[j] == c[j] && c[j] == n[j]);
                }
                assert(csum_sub(d, t1, 25) <= budget) by {
                    assert(d.subrange(0, t1) =~= n.subrange(0, t1));
                    lemma_csum_split(d, 0, t1, 25);
                    lemma_csum_split(n, 0, t1, 25);
                    assert(d.subrange(0, 25) =~= d);
                    assert(n.subrange(0, 25) =~= n);
                    assert(csum(n) == k);
                    assert(csum_sub(n, t1, 25) == budget) by {
                        assert(n.subrange(t1, 25) =~= g);
                    }
                }
                assert(n.subrange(t1, 25) =~= g);
                lemma_greedy_is_max(h, n, d, budget, t1);
                lemma_lex_shift(n, d, 0, t1);
                lemma_lex_total(d, n, 0);
            }
        }
    }
}

/// When the scan finds no pair, the current vector is the least valid one.
proof fn lemma_exhausted(c: Seq<u8>, h: Seq<u8>, k: int, d: Seq<u8>)
    requires
        h.len() == 25,
        valid_pick(c, h, k),
        valid_pick(d, h, k),
        donor_pair(c, h).0 < 0,
    ensures
        !lex_lt(d, c),
{
    lemma_donor(c, h);
    if lex_lt(d, c) {
        let i = lemma_lex_witness(d, c, 0);
        assert(c[i] > 0);
        assert(forall|r: int| i < r < 25 ==> c[r] == h[r]);
        lemma_suffix_full_smaller(c, h, d, i);
    }
}

/// The greedy start vector is the greatest valid one.
proof fn lemma_init_max(h: Seq<u8>, k: int, d: Seq<u8>)
    requires
        h.len() == 25,
        0 <= k,
        valid_pick(d, h, k),
    ensures
        !lex_lt(greedy_fill(h, k, 0), d),
{
    lemma_greedy_props(h, k, 0);
    let a = greedy_fill(h, k, 0);
    assert(a.subrange(0, 25) =~= a);
    assert(d.subrange(0, 25) =~= d);
    lemma_greedy_is_max(h, a, d, k, 0);
}

// ------------------------------------------------------------------
// a rank for termination of full walks

/// Powers of nine; a count in a valid pick never exceeds eight, so count
/// vectors read as base-9 numerals.
pub open spec fn nine_pow(k: int) -> int
    decreases k,
{
    if k <= 0 {
        1
    } else {
        9 * nine_pow(k - 1)
    }
}

/// The base-9 numeral a count vector spells from position `i` on.
pub open spec fn rank9(c: Seq<u8>, i: int) -> int
    decreases 25 - i,
{
    if i < 0 || i >= 25 {
        0
    } else {
        c[i] * nine_pow(24 - i) + rank9(c, i + 1)
    }
}

proof fn lemma_nine_pow_pos(k: int)
    ensures
        nine_pow(k) >= 1,
    decreases k,
{
    if k > 0 {
        lemma_nine_pow_pos(k - 1);
    }
}

proof fn lemma_rank9_bounds(c: Seq<u8>, i: int)
    requires
        c.len() == 25,
        forall|j: int| 0 <= j < 25 ==> c[j] <= 8,
        0 <= i <= 25,
    ensures
        0 <= rank9(c, i) < nine_pow(25 - i),
    decreases 25 - i,
{
    lemma_nine_pow_pos(24 - i);
    if i < 25 {
        lemma_rank9_bounds(c, i + 1);
        assert(c[i] * nine_pow(24 - i) <= 8 * nine_pow(24 - i)) by (nonlinear_arith)
            requires
                c[i] <= 8,
                nine_pow(24 - i) >= 1,
        ;
        assert(c[i] * nine_pow(24 - i) >= 0) by (nonlinear_arith)
            requires
                c[i] >= 0,
                nine_pow(24 - i) >= 1,
        ;
    }
}

/// Lexicographic order refines the base-9 rank.
proof fn lemma_rank9_lt(a: Seq<u8>, b: Seq<u8>, i: int)
    requires
        a.len() == 25,
        b.len() == 25,
        forall|j: int| 0 <= j < 25 ==> a[j] <= 8,
        forall|j: int| 0 <= j < 25 ==> b[j] <= 8,
        0 <= i <= 25,
        lex_lt_from(a, b, i),
    ensures
        rank9(a, i) < rank9(b, i),
    decreases 25 - i,
{
    if a[i] < b[i] {
        lemma_rank9_bounds(a, i + 1);
        lemma_rank9_bounds(b, i + 1);
        lemma_nine_pow_pos(24 - i);
        assert((a[i] + 1) * nine_pow(24 - i) <= b[i] * nine_pow(24 - i)) by (nonlinear_arith)
            requires
                a[i] + 1 <= b[i],
                nine_pow(24 - i) >= 1,
        ;
        assert((a[i] + 1) * nine_pow(24 - i) == a[i] * nine_pow(24 - i) + nine_pow(24 - i))
            by (nonlinear_arith);
    } else {
        lemma_rank9_lt(a, b, i + 1);
    }
}

/// Counts in a valid pick never exceed its size.
pub proof fn lemma_valid_counts_small(c: Seq<u8>, h: Seq<u8>, k: int)
    requires
        valid_pick(c, h, k),
        k <= 8,
    ensures
        forall|j: int| 0 <= j < 25 ==> c[j] <= 8,
{
    assert forall|j: int| 0 <= j < 25 implies c[j] <= 8 by {
        lemma_csum_element(c, 0, 25, j);
        assert(c.subrange(0, 25) =~= c);
    }
}

// ------------------------------------------------------------------
// materialization

/// The pickup with a given ordinal, as a value.
pub open spec fn ord_pickup(i: int) -> Pickup {
    if i == 0 {
        Pickup::RedHeart
    } else if i == 1 {
        Pickup::SoulHeart
    } else if i == 2 {
        Pickup::BlackHeart
    } else if i == 3 {
        Pickup::EternalHeart
    } else if i == 4 {
        Pickup::GoldHeart
    } else if i == 5 {
        Pickup::BoneHeart
    } else if i == 6 {
        Pickup::RottenHeart
    } else if i == 7 {
        Pickup::Penny
    } else if i == 8 {
        Pickup::Nickel
    } else if i == 9 {
        Pickup::Dime
    } else if i == 10 {
        Pickup::LuckyPenny
    } else if i == 11 {
        Pickup::Key
    } else if i == 12 {
        Pickup::GoldenKey
    } else if i == 13 {
        Pickup::ChargedKey
    } else if i == 14 {
        Pickup::Bomb
    } else if i == 15 {
        Pickup::GoldenBomb
    } else if i == 16 {
        Pickup::GigaBomb
    } else if i == 17 {
        Pickup::MicroBattery
    } else if i == 18 {
        Pickup::LilBattery
    } else if i == 19 {
        Pickup::MegaBattery
    } else if i == 20 {
        Pickup::Card
    } else if i == 21 {
        Pickup::Pill
    } else if i == 22 {
        Pickup::Rune
    } else if i == 23 {
        Pickup::DiceShard
    } else {
        Pickup::CrackedKey
    }
}

/// The pickups a count vector spells out, grouped by ascending ordinal from
/// position `i`.
pub open spec fn expansion(c: Seq<u8>, i: int) -> Seq<Pickup>
    decreases 25 - i,
{
    if i < 0 || i >= 25 {
        Seq::empty()
    } else {
        Seq::new(c[i] as nat, |t: int| ord_pickup(i)) + expansion(c, i + 1)
    }
}

/// The emission shape of the walk: the spelled-out bag, padded to eight
/// slots with red hearts.
pub open spec fn padded_expansion(c: Seq<u8>, k: int) -> Seq<Pickup> {
    expansion(c, 0) + Seq::new((8 - k) as nat, |t: int| Pickup::RedHeart)
}

/// Spell a count vector out as pickups padded to eight slots.
pub(crate) fn materialize(c: &Vec<u8>, k: u8) -> (v: Vec<Pickup>)
    requires
        c@.len() == 25,
        csum(c@) == k as int,
        k <= 8,
    ensures
        v@ == padded_expansion(c@, k as int),
        v@.len() == 8,
{
    let mut v: Vec<Pickup> = Vec::new();
    let mut i: usize = 0;
    while i < 25
        invariant
            i <= 25,
            c@.len() == 25,
            v@ + expansion(c@, i as int) =~= expansion(c@, 0),
            v@.len() + csum_sub(c@, i as int, 25) == csum_sub(c@, 0, 25),
        decreases 25 - i,
    {
        let p = Pickup::from_ordinal(i);
        proof {
            assert(ord_pickup(i as int).ord() == i as int);
            crate::pickup::lemma_ord_injective(p, ord_pickup(i as int));
            lemma_csum_split(c@, i as int, i as int + 1, 25);
            assert(c@.subrange(i as int, i as int + 1) =~= seq![c@[i as int]]);
            lemma_csum_single(c@[i as int]);
        }
        let reps = c[i];
        let ghost v_before = v@;
        let mut t: u8 = 0;
        while t < reps
            invariant
                t <= reps,
                reps == c@[i as int],
                i < 25,
                v@ =~= v_before + Seq::new(t as nat, |u: int| ord_pickup(i as int)),
                p == ord_pickup(i as int),
            decreases reps - t,
        {
            v.push(p);
            t = t + 1;
        }
        proof {
            assert(v@ =~= v_before + Seq::new(c@[i as int] as nat, |u: int| ord_pickup(i as int)));
            assert(v@ + expansion(c@, i as int + 1) =~= v_before + expansion(c@, i as int));
        }
        i = i + 1;
    }
    proof {
        assert(expansion(c@, 25) =~= Seq::<Pickup>::empty());
        assert(v@ =~= expansion(c@, 0));
        assert(c@.subrange(25, 25) =~= Seq::<u8>::empty());
        assert(c@.subrange(0, 25) =~= c@);
        assert(v@.len() == k as int);
    }
    let ghost v_mid = v@;
    let mut j: u8 = 0;
    let pad = 8 - k;
    while j < pad
        invariant
            j <= pad,
            pad == 8 - k,
            v@ =~= v_mid + Seq::new(j as nat, |u: int| Pickup::RedHeart),
            v_mid.len() == k as int,
        decreases pad - j,
    {
        v.push(Pickup::RedHeart);
        j = j + 1;
    }
    proof {
        assert(v@ =~= padded_expansion(c@, k as int));
    }
    v
}

// ------------------------------------------------------------------
// executable scan and refill

/// The donor pair of the current vector, or (-1, -1).
fn find_pair(c: &Vec<u8>, h: &Vec<u8>) -> (r: (i32, i32))
    requires
        c@.len() == 25,
        h@.len() == 25,
    ensures
        r.0 as int == donor_pair(c@, h@).0,
        r.1 as int == donor_pair(c@, h@).1,
{
    let mut p: i32 = 24;
    let mut inc: i32 = -1;
    while p >= 0
        invariant
            -1 <= p <= 24,
            -1 <= inc < 25,
            c@.len() == 25,
            h@.len() == 25,
            scan_pair(c@, h@, p as int, inc as int) == donor_pair(c@, h@),
        decreases p + 1,
    {
        if inc >= 0 && c[p as usize] > 0 {
            return (p, inc);
        }
        if c[p as usize] < h[p as usize] {
            inc = p;
        }
        p = p - 1;
    }
    (-1, -1)
}

/// Sum of the counts from `from` on; the total of the vector stays within
/// eight.
fn sum_range(c: &Vec<u8>, from: usize) -> (s: u8)
    requires
        c@.len() == 25,
        from <= 25,
        0 <= csum(c@) <= 8,
        forall|j: int| 0 <= j < 25 ==> c@[j] <= 8,
    ensures
        s as int == csum_sub(c@, from as int, 25),
{
    proof {
        assert(c@.subrange(0, 25) =~= c@);
        lemma_csum_split(c@, 0, from as int, 25);
        lemma_csum_nonneg(c@.subrange(0, from as int));
        lemma_csum_nonneg(c@.subrange(from as int, 25));
    }
    let mut s: u8 = 0;
    let mut i: usize = from;
    while i < 25
        invariant
            from <= i <= 25,
            c@.len() == 25,
            s as int == csum_sub(c@, from as int, i as int),
            csum_sub(c@, from as int, 25) <= 8,
            s as int <= csum_sub(c@, from as int, 25),
        decreases 25 - i,
    {
        proof {
            lemma_csum_split(c@, from as int, i as int, i as int + 1);
            assert(c@.subrange(i as int, i as int + 1) =~= seq![c@[i as int]]);
            lemma_csum_single(c@[i as int]);
            lemma_csum_split(c@, from as int, i as int + 1, 25);
            lemma_csum_nonneg(c@.subrange(i as int + 1, 25));
        }
        s = s + c[i];
        i = i + 1;
    }
    s
}

/// Refill the positions from `start` on greedily with the budget; returns
/// what could not be placed.
fn refill(cur: &mut Vec<u8>, held: &Vec<u8>, start: usize, budget: u8) -> (rem: u8)
    requires
        old(cur)@.len() == 25,
        held@.len() == 25,
        start <= 25,
    ensures
        final(cur)@ == old(cur)@.take(start as int) + greedy_fill(
            held@,
            budget as int,
            start as int,
        ),
        rem as int == budget as int - csum(greedy_fill(held@, budget as int, start as int)),
{
    let ghost orig = cur@;
    let mut rem = budget;
    let mut i = start;
    proof {
        assert(cur@.take(start as int) =~= orig.take(start as int));
    }
    while i < 25
        invariant
            start <= i <= 25,
            cur@.len() == 25,
            held@.len() == 25,
            rem <= budget,
            cur@.take(i as int) + greedy_fill(held@, rem as int, i as int) =~= orig.take(
                start as int,
            ) + greedy_fill(held@, budget as int, start as int),
            rem as int == budget as int - (csum(greedy_fill(held@, budget as int, start as int))
                - csum(greedy_fill(held@, rem as int, i as int))),
        decreases 25 - i,
    {
        let hv = held[i];
        let m = if hv < rem {
            hv
        } else {
            rem
        };
        proof {
            let g = greedy_fill(held@, rem as int, i as int);
            let g2 = greedy_fill(held@, rem as int - m as int, i as int + 1);
            assert(g =~= seq![m] + g2);
            lemma_csum_concat(seq![m], g2);
            lemma_csum_single(m);
        }
        cur.set(i, m);
        proof {
            assert(cur@.take(i as int + 1) =~= cur@.take(i as int).push(m));
        }
        rem = rem - m;
        i = i + 1;
    }
    proof {
        assert(greedy_fill(held@, rem as int, 25) =~= Seq::<u8>::empty());
        assert(cur@.take(25) =~= cur@);
        assert(cur@ + Seq::<u8>::empty() =~= cur@);
    }
    rem
}

// ------------------------------------------------------------------
// the iterator

/// Lazy, duplicate-free walk over every size-`k` sub-bag of the held
/// counts, one count vector at a time, in strictly decreasing lexicographic
/// order. Not restartable; a fresh walk starts from a fresh iterator.
pub struct PickupIterator {
    current: Vec<u8>,
    held: Vec<u8>,
    k: u8,
    done: bool,
    emitted: Ghost<Seq<Seq<u8>>>,
}

impl PickupIterator {
    /// The held counts the walk draws from.
    pub closed spec fn held_at(self) -> Seq<u8> {
        self.held@
    }

    /// The vector the walk will emit next (meaningful while not done).
    pub closed spec fn cur_at(self) -> Seq<u8> {
        self.current@
    }

    /// The size of the emitted sub-bags.
    pub closed spec fn size(self) -> int {
        self.k as int
    }

    /// Whether the walk is exhausted.
    pub closed spec fn is_done(self) -> bool {
        self.done
    }

    /// Every count vector emitted so far, oldest first.
    pub closed spec fn emitted_at(self) -> Seq<Seq<u8>> {
        self.emitted@
    }

    /// Whether a count vector was already emitted.
    pub open spec fn emitted_has(self, d: Seq<u8>) -> bool {
        exists|t: int| 0 <= t < self.emitted_at().len() && self.emitted_at()[t] == d
    }

    /// The walk's invariant: what came out is valid, strictly decreasing
    /// (hence duplicate-free), and covers every valid vector above the
    /// current one; when the walk is done it covers every valid vector.
    pub open spec fn wf(self) -> bool {
        &&& self.held_at().len() == 25
        &&& self.cur_at().len() == 25
        &&& 0 <= self.size() <= 8
        &&& (!self.is_done() ==> valid_pick(self.cur_at(), self.held_at(), self.size()))
        &&& (forall|t: int|
            0 <= t < self.emitted_at().len() ==> valid_pick(
                #[trigger] self.emitted_at()[t],
                self.held_at(),
                self.size(),
            ))
        &&& (forall|t1: int, t2: int|
            0 <= t1 < t2 < self.emitted_at().len() ==> lex_lt(
                #[trigger] self.emitted_at()[t2],
                #[trigger] self.emitted_at()[t1],
            ))
        &&& (!self.is_done() ==> (forall|t: int|
            0 <= t < self.emitted_at().len() ==> lex_lt(
                self.cur_at(),
                #[trigger] self.emitted_at()[t],
            )))
        &&& (forall|d: Seq<u8>|
            #[trigger] valid_pick(d, self.held_at(), self.size()) && (self.is_done() || lex_lt(
                self.cur_at(),
                d,
            )) ==> self.emitted_has(d))
    }

    /// Start a walk over the size-`pickups` sub-bags of `held`. The walk is
    /// empty exactly when fewer than `pickups` units are held in total.
    pub fn new(held: Vec<u8>, pickups: u8) -> (it: PickupIterator)
        requires
            held@.len() == 25,
            pickups <= 8,
        ensures
            it.wf(),
            it.held_at() == held@,
            it.size() == pickups as int,
            it.emitted_at() == Seq::<Seq<u8>>::empty(),
            it.is_done() <==> csum(held@) < pickups as int,
    {
        let mut current: Vec<u8> = Vec::new();
        let mut z: usize = 0;
        while z < 25
            invariant
                z <= 25,
                current@.len() == z as int,
            decreases 25 - z,
        {
            current.push(0);
            z = z + 1;
        }
        let rem = refill(&mut current, &held, 0, pickups);
        let done = rem != 0;
        let ghost g = greedy_fill(held@, pickups as int, 0);
        proof {
            lemma_greedy_props(held@, pickups as int, 0);
            assert(current@ =~= g);
            assert(held@.subrange(0, 25) =~= held@);
            assert(csum_sub(held@, 0, 25) == csum(held@));
        }
        let it = PickupIterator {
            current,
            held,
            k: pickups,
            done,
            emitted: Ghost(Seq::empty()),
        };
        proof {
            if !done {
                assert(csum(it.cur_at()) == pickups as int);
                assert(valid_pick(it.cur_at(), it.held_at(), pickups as int));
                assert forall|d: Seq<u8>|
                    #[trigger] valid_pick(d, it.held_at(), it.size()) && (it.is_done() || lex_lt(
                        it.cur_at(),
                        d,
                    )) implies it.emitted_has(d) by {
                    lemma_init_max(it.held_at(), pickups as int, d);
                }
            } else {
                assert(csum(it.held_at()) < pickups as int);
                assert forall|d: Seq<u8>|
                    #[trigger] valid_pick(d, it.held_at(), it.size()) && (it.is_done() || lex_lt(
                        it.cur_at(),
                        d,
                    )) implies it.emitted_has(d) by {
                    lemma_csum_pointwise(d, it.held_at());
                }
            }
        }
        it
    }

    /// Whether the walk is exhausted.
    pub fn finished(&self) -> (b: bool)
        ensures
            b == self.is_done(),
    {
        self.done
    }

    /// Record the current vector as emitted and move to its immediate
    /// lexicographic predecessor, or finish.
    fn emit_and_advance(&mut self)
        requires
            old(self).wf(),
            !old(self).is_done(),
        ensures
            final(self).wf(),
            final(self).held_at() == old(self).held_at(),
            final(self).size() == old(self).size(),
            final(self).emitted_at() == old(self).emitted_at().push(old(self).cur_at()),
            !final(self).is_done() ==> lex_lt(final(self).cur_at(), old(self).cur_at()),
    {
        let ghost prev = self.current@;
        let ghost h = self.held@;
        let ghost kk = self.k as int;
        let ghost old_em = self.emitted@;
        proof {
            self.emitted@ = self.emitted@.push(self.current@);
        }
        let pr = find_pair(&self.current, &self.held);
        proof {
            lemma_donor(prev, h);
            lemma_valid_counts_small(prev, h, kk);
        }
        if pr.0 >= 0 {
            let t2 = pr.0 as usize;
            let t1 = pr.1 as usize;
            proof {
                lemma_csum_split(prev, 0, t1 as int, 25);
                lemma_csum_nonneg(prev.subrange(0, t1 as int));
                assert(prev.subrange(0, 25) =~= prev);
            }
            let s = sum_range(&self.current, t1);
            let cv = self.current[t2];
            self.current.set(t2, cv - 1);
            let budget = s + 1;
            let _ = refill(&mut self.current, &self.held, t1, budget);
            proof {
                let n = next_vector(prev, h, t2 as int, t1 as int);
                lemma_next_valid(prev, h, kk);
                assert(self.current@ == n) by {
                    let dec = prev.update(t2 as int, (prev[t2 as int] - 1) as u8);
                    assert(self.current@ == dec.take(t1 as int) + greedy_fill(
                        h,
                        budget as int,
                        t1 as int,
                    ));
                    assert(budget as int == csum_sub(prev, t1 as int, 25) + 1);
                }
                let em = self.emitted@;
                assert(em == old_em.push(prev));
                assert forall|t: int|
                    0 <= t < em.len() implies valid_pick(#[trigger] em[t], h, kk) by {
                    if t < old_em.len() {
                        assert(em[t] == old(self).emitted_at()[t]);
                        assert(valid_pick(
                            old(self).emitted_at()[t],
                            old(self).held_at(),
                            old(self).size(),
                        ));
                    } else {
                        assert(em[t] == prev);
                    }
                }
                assert forall|t1x: int, t2x: int|
                    0 <= t1x < t2x < em.len() implies lex_lt(
                        #[trigger] em[t2x],
                        #[trigger] em[t1x],
                    ) by {
                    if t2x < old_em.len() {
                        assert(em[t2x] == old(self).emitted_at()[t2x]);
                        assert(em[t1x] == old(self).emitted_at()[t1x]);
                        assert(lex_lt(old(self).emitted_at()[t2x], old(self).emitted_at()[t1x]));
                    } else {
                        assert(em[t2x] == prev);
                        assert(em[t1x] == old(self).emitted_at()[t1x]);
                        assert(lex_lt(old(self).cur_at(), old(self).emitted_at()[t1x]));
                    }
                }
                assert forall|t: int|
                    0 <= t < em.len() implies lex_lt(self.cur_at(), #[trigger] em[t]) by {
                    if t < old_em.len() {
                        assert(em[t] == old(self).emitted_at()[t]);
                        assert(lex_lt(old(self).cur_at(), old(self).emitted_at()[t]));
                        lemma_lex_trans(n, prev, em[t], 0);
                    } else {
                        assert(em[t] == prev);
                    }
                }
                assert forall|d: Seq<u8>|
                    #[trigger] valid_pick(d, h, kk) && (self.is_done() || lex_lt(
                        self.cur_at(),
                        d,
                    )) implies self.emitted_has(d) by {
                    lemma_lex_total(d, prev, 0);
                    if d == prev {
                        assert(self.emitted_at()[em.len() - 1] == d);
                    } else if lex_lt(prev, d) {
                        assert(valid_pick(d, old(self).held_at(), old(self).size()));
                        assert(old(self).emitted_has(d));
                        let t = choose|t: int|
                            0 <= t < old_em.len() && old_em[t] == d;
                        assert(self.emitted_at()[t] == d);
                    } else {
                        lemma_next_immediate(prev, h, kk, d);
                        if d == n {
                            lemma_lex_irrefl(n, 0);
                        } else {
                            lemma_lex_trans(n, d, n, 0);
                            lemma_lex_irrefl(n, 0);
                        }
                    }
                }
            }
        } else {
            self.done = true;
            proof {
                let em = self.emitted@;
                assert(em == old_em.push(prev));
                assert forall|t: int|
                    0 <= t < em.len() implies valid_pick(#[trigger] em[t], h, kk) by {
                    if t < old_em.len() {
                        assert(em[t] == old(self).emitted_at()[t]);
                        assert(valid_pick(
                            old(self).emitted_at()[t],
                            old(self).held_at(),
                            old(self).size(),
                        ));
                    } else {
                        assert(em[t] == prev);
                    }
                }
                assert forall|t1x: int, t2x: int|
                    0 <= t1x < t2x < em.len() implies lex_lt(
                        #[trigger] em[t2x],
                        #[trigger] em[t1x],
                    ) by {
                    if t2x < old_em.len() {
                        assert(em[t2x] == old(self).emitted_at()[t2x]);
                        assert(em[t1x] == old(self).emitted_at()[t1x]);
                        assert(lex_lt(old(self).emitted_at()[t2x], old(self).emitted_at()[t1x]));
                    } else {
                        assert(em[t2x] == prev);
                        assert(em[t1x] == old(self).emitted_at()[t1x]);
                        assert(lex_lt(old(self).cur_at(), old(self).emitted_at()[t1x]));
                    }
                }
                assert forall|d: Seq<u8>|
                    #[trigger] valid_pick(d, h, kk) && (self.is_done() || lex_lt(
                        self.cur_at(),
                        d,
                    )) implies self.emitted_has(d) by {
                    lemma_lex_total(d, prev, 0);
                    if d == prev {
                        assert(self.emitted_at()[em.len() - 1] == d);
                    } else if lex_lt(prev, d) {
                        assert(valid_pick(d, old(self).held_at(), old(self).size()));
                        assert(old(self).emitted_has(d));
                        let t = choose|t: int|
                            0 <= t < old_em.len() && old_em[t] == d;
                        assert(self.emitted_at()[t] == d);
                    } else {
                        lemma_exhausted(prev, h, kk, d);
                    }
                }
            }
        }
    }

    /// The next sub-bag, spelled out as pickups in ascending ordinal order
    /// and padded to eight slots with red hearts, or nothing when the walk
    /// is over.
    pub fn next(&mut self) -> (r: Option<Vec<Pickup>>)
        requires
            old(self).wf(),
        ensures
            final(self).wf(),
            final(self).held_at() == old(self).held_at(),
            final(self).size() == old(self).size(),
            old(self).is_done() ==> r is None && final(self).emitted_at() == old(
                self,
            ).emitted_at() && final(self).is_done(),
            !old(self).is_done() ==> (r matches Some(v) && v@ == padded_expansion(
                old(self).cur_at(),
                old(self).size(),
            ) && v@.len() == 8 && final(self).emitted_at() == old(self).emitted_at().push(
                old(self).cur_at(),
            )),
    {
        if self.done {
            return None;
        }
        let v = materialize(&self.current, self.k);
        self.emit_and_advance();
        Some(v)
    }
}

/// Every size-`k` sub-bag of the held counts, as count vectors: each one
/// valid, no vector twice, and none missing.
pub fn all_picks(held: &Vec<u8>, k: u8) -> (out: Vec<Vec<u8>>)
    requires
        held@.len() == 25,
        k <= 8,
    ensures
        forall|t: int|
            0 <= t < out@.len() ==> valid_pick((#[trigger] out@[t])@, held@, k as int),
        forall|t1: int, t2: int|
            0 <= t1 < t2 < out@.len() ==> (#[trigger] out@[t1])@ != (#[trigger] out@[t2])@,
        forall|d: Seq<u8>|
            #[trigger] valid_pick(d, held@, k as int) ==> exists|t: int|
                0 <= t < out@.len() && (#[trigger] out@[t])@ == d,
{
    let mut held2: Vec<u8> = Vec::new();
    let mut z: usize = 0;
    while z < 25
        invariant
            z <= 25,
            held@.len() == 25,
            held2@ =~= held@.subrange(0, z as int),
        decreases 25 - z,
    {
        held2.push(held[z]);
        z = z + 1;
    }
    proof {
        assert(held2@ =~= held@);
    }
    let mut it = PickupIterator::new(held2, k);
    let mut out: Vec<Vec<u8>> = Vec::new();
    while !it.finished()
        invariant
            it.wf(),
            it.held_at() == held@,
            it.size() == k as int,
            out@.len() == it.emitted_at().len(),
            forall|t: int|
                0 <= t < out@.len() ==> (#[trigger] out@[t])@ == it.emitted_at()[t],
        decreases (if it.is_done() {
            0int
        } else {
            rank9(it.cur_at(), 0) + 1
        }),
    {
        let mut cc: Vec<u8> = Vec::new();
        let mut z2: usize = 0;
        while z2 < 25
            invariant
                z2 <= 25,
                it.cur_at().len() == 25,
                cc@ =~= it.cur_at().subrange(0, z2 as int),
                it.wf(),
                !it.is_done(),
            decreases 25 - z2,
        {
            cc.push(it.current[z2]);
            z2 = z2 + 1;
        }
        proof {
            assert(cc@ =~= it.cur_at());
        }
        let ghost prev = it.cur_at();
        out.push(cc);
        it.emit_and_advance();
        proof {
            lemma_valid_counts_small(prev, it.held_at(), k as int);
            lemma_rank9_bounds(prev, 0);
            if !it.is_done() {
                lemma_valid_counts_small(it.cur_at(), it.held_at(), k as int);
                lemma_rank9_lt(it.cur_at(), prev, 0);
                lemma_rank9_bounds(it.cur_at(), 0);
            }
        }
    }
    proof {
        assert forall|t1: int, t2: int|
            0 <= t1 < t2 < out@.len() implies (#[trigger] out@[t1])@ != (#[trigger] out@[t2])@ by {
            assert(lex_lt(it.emitted_at()[t2], it.emitted_at()[t1]));
            if out@[t1]@ == out@[t2]@ {
                lemma_lex_irrefl(it.emitted_at()[t1], 0);
            }
        }
        assert forall|d: Seq<u8>| #[trigger] valid_pick(d, held@, k as int) implies exists|t: int|
            0 <= t < out@.len() && (#[trigger] out@[t])@ == d by {
            assert(it.emitted_has(d));
            let t = choose|t: int| 0 <= t < it.emitted_at().len() && it.emitted_at()[t] == d;
            assert(out@[t]@ == d);
        }
    }
    out
}

} // verus!

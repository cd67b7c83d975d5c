//! Exact integer statistics over fixed-point values: sorting, median,
//! minimum/maximum, and min-max scaling.  These are the arithmetic kernels of
//! the transform pipeline, each proved against a direct mathematical
//! definition.

use vstd::prelude::*;
use vstd::relations::{sorted_by, total_ordering};
use vstd::seq_lib::lemma_sorted_unique;
use vstd::seq_lib::to_multiset_insert;
use crate::store::{UNIT, VAL_LIMIT};

verus! {

/// The ordering under which value sequences are sorted.
pub open spec fn leq64() -> spec_fn(i64, i64) -> bool {
    |a: i64, b: i64| a <= b
}

/// The sorted permutation of a value sequence.
pub open spec fn sorted_of(s: Seq<i64>) -> Seq<i64> {
    s.sort_by(leq64())
}

/// Average of two integers, rounding toward zero.
pub open spec fn spec_avg2(a: int, b: int) -> int {
    if a + b >= 0 {
        (a + b) / 2
    } else {
        -((-(a + b)) / 2)
    }
}

/// The median of a non-empty value sequence: the middle element of the
/// sorted permutation, or for an even count the average of the two middle
/// elements (rounded toward zero, an error of at most half a millionth).
pub open spec fn spec_median(vals: Seq<i64>) -> int {
    let s = sorted_of(vals);
    let n = s.len();
    if n % 2 == 1 {
        s[n as int / 2] as int
    } else {
        spec_avg2(s[n as int / 2 - 1] as int, s[n as int / 2] as int)
    }
}

/// Every element of a sequence is bounded by `VAL_LIMIT` in magnitude.
pub open spec fn all_bounded(s: Seq<i64>) -> bool {
    forall|i: int| 0 <= i < s.len() ==> -VAL_LIMIT <= #[trigger] s[i] <= VAL_LIMIT
}

proof fn lemma_leq64_total()
    ensures
        total_ordering(leq64()),
{
}

/// A sorted copy of `v`.
pub fn sorted_copy(v: &Vec<i64>) -> (r: Vec<i64>)
    ensures
        r@ == sorted_of(v@),
{
    let ghost leq = leq64();
    let mut out: Vec<i64> = Vec::new();
    let mut i: usize = 0;
    proof {
        assert(v@.take(0) =~= Seq::<i64>::empty());
        assert(out@.to_multiset() =~= v@.take(0).to_multiset());
    }
    while i < v.len()
        invariant
            0 <= i <= v@.len(),
            sorted_by(out@, leq),
            leq == leq64(),
            out@.to_multiset() == v@.take(i as int).to_multiset(),
        decreases v@.len() - i,
    {
        let x = v[i];
        let mut p: usize = 0;
        while p < out.len() && out[p] <= x
            invariant
                0 <= p <= out@.len(),
                forall|k: int| 0 <= k < p ==> #[trigger] out@[k] <= x,
            decreases out@.len() - p,
        {
            p = p + 1;
        }
        let ghost old_out = out@;
        out.insert(p, x);
        proof {
            to_multiset_insert(old_out, p as int, x);
            assert(v@.take(i as int).push(x) =~= v@.take(i + 1));
            vstd::seq_lib::to_multiset_build(v@.take(i as int), x);
            assert(out@.to_multiset() =~= v@.take(i + 1).to_multiset());
            assert forall|a: int, b: int| 0 <= a < b < out@.len() implies leq(
                out@[a],
                out@[b],
            ) by {
                if a < p && b == p {
                    assert(out@[a] == old_out[a]);
                } else if a == p && b > p {
                    assert(out@[b] == old_out[b - 1]);
                    if p < old_out.len() {
                        assert(leq(old_out[p as int], old_out[b - 1]) || p == b - 1);
                    }
                } else if a < p && b > p {
                    assert(out@[a] == old_out[a] && out@[b] == old_out[b - 1]);
                    assert(old_out[a] <= x);
                } else if a < p && b < p {
                    assert(out@[a] == old_out[a] && out@[b] == old_out[b]);
                } else if a > p && b > p {
                    assert(out@[a] == old_out[a - 1] && out@[b] == old_out[b - 1]);
                }
            }
        }
        i = i + 1;
    }
    proof {
        assert(v@.take(v@.len() as int) =~= v@);
        lemma_leq64_total();
        v@.lemma_sort_by_ensures(leq);
        lemma_sorted_unique(out@, sorted_of(v@), leq);
    }
    out
}

/// Elements of the sorted permutation are elements of the input, so they
/// keep its bounds.
proof fn lemma_sorted_of_bounded(s: Seq<i64>)
    requires
        all_bounded(s),
    ensures
        all_bounded(sorted_of(s)),
        sorted_of(s).len() == s.len(),
{
    lemma_leq64_total();
    s.lemma_sort_by_ensures(leq64());
    let t = sorted_of(s);
    broadcast use vstd::seq_lib::group_to_multiset_ensures;

    assert(s.to_multiset() =~= t.to_multiset());
    assert(s.to_multiset().len() == s.len());
    assert(t.to_multiset().len() == t.len());
    assert forall|i: int| 0 <= i < t.len() implies -VAL_LIMIT <= #[trigger] t[i] <= VAL_LIMIT by {
        assert(t.contains(t[i]));
        assert(t.to_multiset().count(t[i]) > 0);
        assert(s.to_multiset().count(t[i]) > 0);
        assert(s.contains(t[i]));
        let k = choose|k: int| 0 <= k < s.len() && s[k] == t[i];
        assert(-VAL_LIMIT <= s[k] <= VAL_LIMIT);
    }
}

/// The average of two bounded values is bounded.
pub proof fn lemma_avg2_bounded(a: int, b: int)
    requires
        -VAL_LIMIT <= a <= VAL_LIMIT,
        -VAL_LIMIT <= b <= VAL_LIMIT,
    ensures
        -VAL_LIMIT <= spec_avg2(a, b) <= VAL_LIMIT,
{
    let m = a + b;
    if m >= 0 {
        vstd::arithmetic::div_mod::lemma_div_pos_is_pos(m, 2);
        vstd::arithmetic::div_mod::lemma_div_is_ordered(m, 2 * VAL_LIMIT, 2);
        vstd::arithmetic::div_mod::lemma_div_by_multiple(VAL_LIMIT as int, 2);
        assert(VAL_LIMIT * 2 == 2 * VAL_LIMIT);
    } else {
        vstd::arithmetic::div_mod::lemma_div_pos_is_pos(-m, 2);
        vstd::arithmetic::div_mod::lemma_div_is_ordered(-m, 2 * VAL_LIMIT, 2);
        vstd::arithmetic::div_mod::lemma_div_by_multiple(VAL_LIMIT as int, 2);
        assert(VAL_LIMIT * 2 == 2 * VAL_LIMIT);
    }
}

/// The median of a non-empty bounded sequence is bounded.
pub proof fn lemma_median_bounded(vals: Seq<i64>)
    requires
        vals.len() > 0,
        all_bounded(vals),
    ensures
        -VAL_LIMIT <= spec_median(vals) <= VAL_LIMIT,
{
    lemma_sorted_of_bounded(vals);
    let s = sorted_of(vals);
    let n = s.len();
    if n % 2 == 1 {
    } else {
        lemma_avg2_bounded(s[n as int / 2 - 1] as int, s[n as int / 2] as int);
    }
}

/// Average of two bounded values, rounding toward zero.
pub fn avg2(a: i64, b: i64) -> (r: i64)
    requires
        -VAL_LIMIT <= a <= VAL_LIMIT,
        -VAL_LIMIT <= b <= VAL_LIMIT,
    ensures
        r as int == spec_avg2(a as int, b as int),
        -VAL_LIMIT <= r <= VAL_LIMIT,
{
    proof {
        lemma_avg2_bounded(a as int, b as int);
    }
    let m: i64 = a + b;
    if m >= 0 {
        m / 2
    } else {
        -((-m) / 2)
    }
}

/// The median of a non-empty, bounded value vector.
pub fn median_of(vals: &Vec<i64>) -> (r: i64)
    requires
        vals@.len() > 0,
        all_bounded(vals@),
    ensures
        r as int == spec_median(vals@),
        -VAL_LIMIT <= r <= VAL_LIMIT,
{
    proof {
        lemma_sorted_of_bounded(vals@);
    }
    let s = sorted_copy(vals);
    let n = s.len();
    if n % 2 == 1 {
        s[n / 2]
    } else {
        avg2(s[n / 2 - 1], s[n / 2])
    }
}

/// Minimum of a non-empty sequence, taken left to right.
pub open spec fn seq_min(s: Seq<i64>) -> i64
    decreases s.len(),
{
    if s.len() <= 1 {
        s[0]
    } else {
        let m = seq_min(s.drop_last());
        if s.last() < m {
            s.last()
        } else {
            m
        }
    }
}

/// Maximum of a non-empty sequence, taken left to right.
pub open spec fn seq_max(s: Seq<i64>) -> i64
    decreases s.len(),
{
    if s.len() <= 1 {
        s[0]
    } else {
        let m = seq_max(s.drop_last());
        if s.last() > m {
            s.last()
        } else {
            m
        }
    }
}

/// The minimum and maximum bound every element and are themselves elements.
pub proof fn lemma_min_max(s: Seq<i64>)
    requires
        s.len() > 0,
    ensures
        forall|i: int| 0 <= i < s.len() ==> seq_min(s) <= #[trigger] s[i] <= seq_max(s),
        exists|i: int| 0 <= i < s.len() && s[i] == seq_min(s),
        exists|i: int| 0 <= i < s.len() && s[i] == seq_max(s),
    decreases s.len(),
{
    if s.len() == 1 {
        assert(s[0] == seq_min(s));
        assert(s[0] == seq_max(s));
    } else {
        lemma_min_max(s.drop_last());
        assert forall|i: int| 0 <= i < s.len() implies seq_min(s) <= #[trigger] s[i] <= seq_max(
            s,
        ) by {
            if i < s.len() - 1 {
                assert(s.drop_last()[i] == s[i]);
            }
        }
        if seq_min(s) == s.last() {
            assert(s[s.len() - 1] == seq_min(s));
        } else {
            let i = choose|i: int| 0 <= i < s.drop_last().len() && s.drop_last()[i] == seq_min(
                s.drop_last(),
            );
            assert(s[i] == seq_min(s));
        }
        if seq_max(s) == s.last() {
            assert(s[s.len() - 1] == seq_max(s));
        } else {
            let i = choose|i: int| 0 <= i < s.drop_last().len() && s.drop_last()[i] == seq_max(
                s.drop_last(),
            );
            assert(s[i] == seq_max(s));
        }
    }
}

/// Minimum and maximum of a non-empty value vector.
pub fn min_max_of(vals: &Vec<i64>) -> (r: (i64, i64))
    requires
        vals@.len() > 0,
    ensures
        r.0 == seq_min(vals@),
        r.1 == seq_max(vals@),
{
    let mut lo: i64 = vals[0];
    let mut hi: i64 = vals[0];
    let mut i: usize = 1;
    proof {
        assert(vals@.take(1) =~= seq![vals@[0]]);
    }
    while i < vals.len()
        invariant
            1 <= i <= vals@.len(),
            lo == seq_min(vals@.take(i as int)),
            hi == seq_max(vals@.take(i as int)),
        decreases vals@.len() - i,
    {
        let x = vals[i];
        proof {
            assert(vals@.take(i + 1).drop_last() =~= vals@.take(i as int));
            assert(vals@.take(i + 1).last() == x);
        }
        if x < lo {
            lo = x;
        }
        if x > hi {
            hi = x;
        }
        i = i + 1;
    }
    proof {
        assert(vals@.take(vals@.len() as int) =~= vals@);
    }
    (lo, hi)
}

/// Min-max scaling of `v` from `[lo, hi]` into the fixed-point range
/// `[0, UNIT]`; a degenerate interval (`hi <= lo`) maps to 0.
pub open spec fn spec_scale(v: int, lo: int, hi: int) -> int {
    if hi <= lo {
        0
    } else {
        (v - lo) * UNIT / (hi - lo)
    }
}

/// Scaled values lie in `[0, UNIT]`; the interval ends map to the range
/// ends exactly.
pub proof fn lemma_scale_bounds(v: int, lo: int, hi: int)
    requires
        lo <= v <= hi,
    ensures
        0 <= spec_scale(v, lo, hi) <= UNIT,
        v == lo ==> spec_scale(v, lo, hi) == 0,
        v == hi && lo < hi ==> spec_scale(v, lo, hi) == UNIT,
{
    if lo < hi {
        let num = (v - lo) * UNIT;
        let den = hi - lo;
        assert(num >= 0) by (nonlinear_arith)
            requires
                v >= lo,
                num == (v - lo) * UNIT,
                UNIT > 0,
        ;
        assert(num <= den * UNIT) by (nonlinear_arith)
            requires
                v <= hi,
                den == hi - lo,
                num == (v - lo) * UNIT,
        ;
        vstd::arithmetic::div_mod::lemma_div_pos_is_pos(num, den);
        vstd::arithmetic::div_mod::lemma_div_is_ordered(num, den * UNIT, den);
        vstd::arithmetic::div_mod::lemma_div_by_multiple(UNIT as int, den);
        if v == lo {
            assert(0 * UNIT == 0) by (nonlinear_arith);
            vstd::arithmetic::div_mod::lemma_div_of0(den);
        }
    }
}

/// Exact min-max scaling into `[0, UNIT]`.
pub fn scale_value(v: i64, lo: i64, hi: i64) -> (r: i64)
    requires
        -VAL_LIMIT <= lo <= v,
        v <= hi <= VAL_LIMIT,
    ensures
        r as int == spec_scale(v as int, lo as int, hi as int),
        0 <= r <= UNIT,
{
    proof {
        lemma_scale_bounds(v as int, lo as int, hi as int);
    }
    if hi <= lo {
        0
    } else {
        let num: i64 = (v - lo) * UNIT;
        num / (hi - lo)
    }
}

} // verus!

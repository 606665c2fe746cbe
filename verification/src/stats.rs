//! The statistics aggregator: one pass over a non-empty value series yields
//! its extrema and its dispersion, held exactly.
//!
//! The population variance of `n` values is `(n * sum_sq - sum^2) / n^2`,
//! where `sum` is the sum of the values and `sum_sq` the sum of their
//! squares. The summary stores the numerator `n * sum_sq - sum^2` and `n`
//! unchanged, so the standard deviation `sqrt(variance)` never has to be
//! rounded: any comparison against it is done on squares.

use vstd::prelude::*;

use crate::model::Reading;
use crate::model::series_wf;
use crate::model::value_in_bounds;

verus! {

/// The values of a series of readings, as unbounded integers.
pub open spec fn values_of(s: Seq<Reading>) -> Seq<int> {
    s.map_values(|r: Reading| r.value as int)
}

/// Sum of a sequence of values.
pub open spec fn seq_sum(s: Seq<int>) -> int
    decreases s.len(),
{
    if s.len() == 0 {
        0
    } else {
        seq_sum(s.drop_last()) + s.last()
    }
}

/// Sum of the squares of a sequence of values.
pub open spec fn seq_sum_sq(s: Seq<int>) -> int
    decreases s.len(),
{
    if s.len() == 0 {
        0
    } else {
        seq_sum_sq(s.drop_last()) + s.last() * s.last()
    }
}

/// Minimum of a non-empty sequence of values.
pub open spec fn seq_min(s: Seq<int>) -> int
    recommends
        s.len() > 0,
    decreases s.len(),
{
    if s.len() == 0 {
        0
    } else if s.len() == 1 {
        s[0]
    } else {
        let m = seq_min(s.drop_last());
        if s.last() < m {
            s.last()
        } else {
            m
        }
    }
}

/// Maximum of a non-empty sequence of values.
pub open spec fn seq_max(s: Seq<int>) -> int
    recommends
        s.len() > 0,
    decreases s.len(),
{
    if s.len() == 0 {
        0
    } else if s.len() == 1 {
        s[0]
    } else {
        let m = seq_max(s.drop_last());
        if s.last() > m {
            s.last()
        } else {
            m
        }
    }
}

/// Numerator of the population variance over a common denominator of
/// `len^2`: `variance == var_num_of(s) / (s.len() * s.len())`.
pub open spec fn var_num_of(s: Seq<int>) -> int {
    s.len() * seq_sum_sq(s) - seq_sum(s) * seq_sum(s)
}

/// Dispersion is never negative: `n * sum_sq - sum^2 >= 0` for every value
/// sequence, so the variance numerator really is `(n * stddev)^2`.
pub proof fn lemma_dispersion_nonneg(vals: Seq<int>)
    ensures
        var_num_of(vals) >= 0,
    decreases vals.len(),
{
    if vals.len() == 0 {
    } else {
        lemma_dispersion_nonneg(vals.drop_last());
        let t = vals.drop_last();
        let n = t.len() as int;
        let sum = seq_sum(t);
        let s2 = seq_sum_sq(t);
        let x = vals.last();
        assert((n + 1) * (s2 + x * x) - (sum + x) * (sum + x) == (n * s2 - sum * sum) + (s2 + n * x
            * x - 2 * sum * x)) by (nonlinear_arith);
        if n == 0 {
            assert(s2 + n * x * x - 2 * sum * x >= 0) by (nonlinear_arith)
                requires
                    n == 0,
                    sum == 0,
                    s2 == 0,
            ;
        } else {
            assert(s2 + n * x * x - 2 * sum * x >= 0) by (nonlinear_arith)
                requires
                    n >= 1,
                    n * s2 - sum * sum >= 0,
            ;
        }
    }
}

/// Why the aggregator can refuse a series.
#[derive(Clone, Copy, Debug, PartialEq, Eq, Structural)]
pub enum AggregateError {
    /// The series holds no readings, so no dispersion statistic exists.
    EmptySeries,
}

/// The dispersion summary of one non-empty series: extrema, reading count,
/// and the exact variance numerator (`variance == var_num / count^2`, so
/// `stddev == sqrt(var_num) / count`).
#[derive(Clone, Copy, Debug, PartialEq, Eq, Structural)]
pub struct DispersionSummary {
    pub min: i64,
    pub max: i64,
    pub count: usize,
    pub var_num: i128,
}

impl DispersionSummary {
    /// A summary a cleaner may rely on: it describes at least one reading of
    /// a bounded series.
    pub open spec fn wf(self) -> bool {
        1 <= self.count <= crate::MAX_SERIES_LEN
    }

    /// The summary holds exactly the dispersion statistics of `vals`.
    pub open spec fn is_summary_of(self, vals: Seq<int>) -> bool {
        &&& vals.len() > 0
        &&& self.count == vals.len()
        &&& self.min == seq_min(vals)
        &&& self.max == seq_max(vals)
        &&& self.var_num == var_num_of(vals)
    }

    /// Aggregation is a pure function of the series: any two summaries of the
    /// same value sequence are equal, so computing a summary twice on the
    /// same series yields identical results.
    pub proof fn lemma_deterministic(a: DispersionSummary, b: DispersionSummary, vals: Seq<int>)
        requires
            a.is_summary_of(vals),
            b.is_summary_of(vals),
        ensures
            a == b,
    {
    }

    /// Compute the dispersion summary of the value series carried by
    /// `readings`, in one pass. An empty series has no statistics and is
    /// refused with `EmptySeries`; every non-empty bounded series succeeds.
    pub fn aggregate(readings: &Vec<Reading>) -> (result: Result<DispersionSummary, AggregateError>)
        requires
            series_wf(readings@),
        ensures
            match result {
                Ok(summary) => readings@.len() > 0 && summary.wf() && summary.var_num >= 0
                    && summary.is_summary_of(values_of(readings@)),
                Err(e) => e == AggregateError::EmptySeries && readings@.len() == 0,
            },
    {
        let ghost vals = values_of(readings@);
        if readings.len() == 0 {
            return Err(AggregateError::EmptySeries);
        }
        let first = readings[0].value;
        proof {
            assert(value_in_bounds(first as int));
            lemma_square_bound(first as int);
        }
        let mut min: i64 = first;
        let mut max: i64 = first;
        let mut sum: i128 = first as i128;
        let mut sum_sq: i128 = (first as i128) * (first as i128);
        proof {
            assert(vals[0] == first as int);
            assert(vals.take(1).drop_last() =~= Seq::<int>::empty());
            assert(seq_sum(Seq::<int>::empty()) == 0);
            assert(seq_sum_sq(Seq::<int>::empty()) == 0);
            assert(seq_sum(vals.take(1)) == first as int);
            assert(seq_sum_sq(vals.take(1)) == (first as int) * (first as int));
        }
        let mut i: usize = 1;
        while i < readings.len()
            invariant
                1 <= i <= readings@.len(),
                readings@.len() <= crate::MAX_SERIES_LEN,
                series_wf(readings@),
                vals == values_of(readings@),
                min == seq_min(vals.take(i as int)),
                max == seq_max(vals.take(i as int)),
                sum == seq_sum(vals.take(i as int)),
                sum_sq == seq_sum_sq(vals.take(i as int)),
                -(i as int) * (crate::MAX_ABS_VALUE as int) <= sum as int <= (i as int) * (
                crate::MAX_ABS_VALUE as int),
                0 <= sum_sq as int <= (i as int) * (crate::MAX_ABS_VALUE as int) * (
                crate::MAX_ABS_VALUE as int),
            decreases readings@.len() - i,
        {
            let v = readings[i].value;
            proof {
                assert(value_in_bounds(v as int));
                lemma_square_bound(v as int);
                assert(vals.take(i + 1).drop_last() =~= vals.take(i as int));
                assert(vals.take(i + 1).last() == v as int);
            }
            if v < min {
                min = v;
            }
            if v > max {
                max = v;
            }
            sum = sum + v as i128;
            sum_sq = sum_sq + (v as i128) * (v as i128);
            i = i + 1;
        }
        proof {
            assert(vals.take(i as int) =~= vals);
        }
        let count = readings.len();
        proof {
            lemma_var_num_fits(count as int, sum as int, sum_sq as int);
            lemma_dispersion_nonneg(vals);
        }
        let var_num: i128 = (count as i128) * sum_sq - sum * sum;
        Ok(DispersionSummary { min, max, count, var_num })
    }

    /// The standard deviation of the summarized series, rounded down to a
    /// whole value unit: the largest `r` with `r <= sqrt(var_num) / count`,
    /// pinned by `(r * count)^2 <= var_num < ((r + 1) * count)^2`.
    pub fn stddev_floor(&self) -> (r: u64)
        requires
            self.wf(),
            self.var_num >= 0,
        ensures
            (r as int) * (r as int) * (self.count as int) * (self.count as int)
                <= self.var_num as int,
            (self.var_num as int) < ((r as int) + 1) * ((r as int) + 1) * (self.count as int) * (
            self.count as int),
    {
        let s = int_sqrt(self.var_num as u128);
        let n = self.count as u128;
        let q = s / n;
        proof {
            let si = s as int;
            let ni = self.count as int;
            let qi = q as int;
            assert(qi * ni <= si && si < (qi + 1) * ni) by (nonlinear_arith)
                requires
                    ni >= 1,
                    qi == si / ni,
            ;
            assert(qi * ni * (qi * ni) <= si * si) by (nonlinear_arith)
                requires
                    0 <= qi * ni <= si,
            ;
            assert(qi * qi * ni * ni == qi * ni * (qi * ni)) by (nonlinear_arith);
            assert((si + 1) * (si + 1) <= (qi + 1) * ni * ((qi + 1) * ni)) by (nonlinear_arith)
                requires
                    0 <= si + 1 <= (qi + 1) * ni,
            ;
            assert((qi + 1) * (qi + 1) * ni * ni == (qi + 1) * ni * ((qi + 1) * ni))
                by (nonlinear_arith);
            assert(qi < 0x1_0000_0000_0000_0000) by (nonlinear_arith)
                requires
                    0 <= qi <= si,
                    si * si <= self.var_num as int,
                    self.var_num < 0x1_0000_0000_0000_0000 * 0x1_0000_0000_0000_0000,
            ;
        }
        q as u64
    }
}

/// Integer square root by binary search: the largest `r` with `r * r <= x`.
fn int_sqrt(x: u128) -> (r: u128)
    ensures
        (r as int) * (r as int) <= x as int,
        (x as int) < ((r as int) + 1) * ((r as int) + 1),
{
    let mut lo: u128 = 0;
    let mut hi: u128 = 0x1_0000_0000_0000_0000;
    proof {
        assert((hi as int) * (hi as int) > x as int) by (nonlinear_arith)
            requires
                hi as int == 0x1_0000_0000_0000_0000,
                (x as int) < 0x1_0000_0000_0000_0000 * 0x1_0000_0000_0000_0000,
        ;
    }
    while lo + 1 < hi
        invariant
            0 <= lo < hi <= 0x1_0000_0000_0000_0000u128,
            (lo as int) * (lo as int) <= x as int,
            (x as int) < (hi as int) * (hi as int),
        decreases hi - lo,
    {
        let mid = lo + (hi - lo) / 2;
        proof {
            assert((mid as int) * (mid as int) < 0x1_0000_0000_0000_0000
                * 0x1_0000_0000_0000_0000) by (nonlinear_arith)
                requires
                    0 <= (mid as int) < 0x1_0000_0000_0000_0000,
            ;
        }
        if mid * mid <= x {
            lo = mid;
        } else {
            hi = mid;
        }
    }
    lo
}

/// The square of a value within `MAX_ABS_VALUE` stays within the square of
/// the bound.
proof fn lemma_square_bound(v: int)
    requires
        value_in_bounds(v),
    ensures
        0 <= v * v <= (crate::MAX_ABS_VALUE as int) * (crate::MAX_ABS_VALUE as int),
{
    assert(0 <= v * v <= 0x100_0000_0000 * 0x100_0000_0000) by (nonlinear_arith)
        requires
            -0x100_0000_0000 <= v <= 0x100_0000_0000,
    ;
}

/// With a bounded count, a bounded sum and a bounded sum of squares, the
/// variance numerator `n * sum_sq - sum^2` fits in `i128`.
proof fn lemma_var_num_fits(n: int, sum: int, sum_sq: int)
    requires
        1 <= n <= crate::MAX_SERIES_LEN,
        -n * (crate::MAX_ABS_VALUE as int) <= sum <= n * (crate::MAX_ABS_VALUE as int),
        0 <= sum_sq <= n * (crate::MAX_ABS_VALUE as int) * (crate::MAX_ABS_VALUE as int),
    ensures
        0 <= n * sum_sq <= 0x10_0000 * 0x10_0000 * 0x100_0000_0000 * 0x100_0000_0000,
        0 <= sum * sum <= 0x10_0000 * 0x10_0000 * 0x100_0000_0000 * 0x100_0000_0000,
{
    assert(0 <= n * sum_sq <= 0x10_0000 * 0x10_0000 * 0x100_0000_0000 * 0x100_0000_0000)
        by (nonlinear_arith)
        requires
            1 <= n <= 0x10_0000,
            0 <= sum_sq <= n * 0x100_0000_0000 * 0x100_0000_0000,
    ;
    assert(-(0x10_0000 * 0x100_0000_0000) <= sum <= 0x10_0000 * 0x100_0000_0000)
        by (nonlinear_arith)
        requires
            1 <= n <= 0x10_0000,
            -n * 0x100_0000_0000 <= sum <= n * 0x100_0000_0000,
    ;
    assert(0 <= sum * sum <= 0x10_0000 * 0x10_0000 * 0x100_0000_0000 * 0x100_0000_0000)
        by (nonlinear_arith)
        requires
            -(0x10_0000 * 0x100_0000_0000) <= sum <= 0x10_0000 * 0x100_0000_0000,
    ;
}

} // verus!

//! The figures behind the activity chart: the daily series, the range of its
//! axis, and the coarse buckets from which the trend line is drawn.
//!
//! All of it is exact integer arithmetic. A bucket is given by its days and the
//! sum of their minutes, so that its mean is a fraction that nothing rounds.

use crate::readme::{lookup, tallied, Totals};
use std::collections::HashMap;
use vstd::prelude::*;

verus! {

/// The days in one bucket of the trend.
pub const TREND_WINDOW_DAYS: usize = 8;

/// The days in one bucket where the series is too short for three of the above.
pub const TREND_FALLBACK_DAYS: usize = 4;

/// How many points of the curve are drawn between two control points.
pub const TREND_SAMPLES_PER_SEGMENT: usize = 50;

/// The sum of the values at the positions `from` up to, not including, `to`.
pub open spec fn series_sum(vals: Seq<u64>, from: int, to: int) -> nat
    decreases to - from,
{
    if from < to {
        series_sum(vals, from, to - 1) + vals[to - 1] as nat
    } else {
        0
    }
}

/// One control point of the trend: a run of days of the series and the sum of
/// their values. Its place on the time axis is the middle of the run,
/// `(first + last) / 2`, and its height is the mean, `sum / (last - first + 1)`.
#[derive(Clone, Copy, Debug, PartialEq, Eq, Structural)]
pub struct Bucket {
    pub first: usize,
    pub last: usize,
    pub sum: u128,
}

/// How many buckets of `width` days cover a series of `n` days.
pub open spec fn bucket_count(n: int, width: int) -> int {
    (n + width - 1) / width
}

/// The bucket at position `k` where a series is cut into runs of `width` days;
/// the last run may be shorter.
pub open spec fn bucket_at(vals: Seq<u64>, width: int, k: int) -> Bucket {
    let first = k * width;
    let end = if first + width <= vals.len() {
        first + width
    } else {
        vals.len() as int
    };
    Bucket { first: first as usize, last: (end - 1) as usize, sum: series_sum(vals, first, end) as u128 }
}

/// The series cut into runs of `width` days.
pub open spec fn cut(vals: Seq<u64>, width: int) -> Seq<Bucket> {
    Seq::new(bucket_count(vals.len() as int, width) as nat, |k: int| bucket_at(vals, width, k))
}

/// Whether `buckets` cuts the series into runs of `width` days, in order.
pub open spec fn cuts(buckets: Seq<Bucket>, vals: Seq<u64>, width: int) -> bool {
    &&& buckets.len() == bucket_count(vals.len() as int, width)
    &&& forall|k: int| 0 <= k < buckets.len() ==> #[trigger] buckets[k] == bucket_at(vals, width, k)
}

/// Whether `buckets` are runs of days of the series that follow one another
/// from its first day to its last, each of one to `width` days, with their sums.
pub open spec fn runs(buckets: Seq<Bucket>, vals: Seq<u64>, width: int) -> bool {
    &&& buckets.len() == 0 <==> vals.len() == 0
    &&& buckets.len() > 0 ==> buckets[0].first == 0 && buckets.last().last == vals.len() - 1
    &&& forall|k: int|
        0 <= k < buckets.len() ==> {
            &&& (#[trigger] buckets[k]).first <= buckets[k].last < vals.len()
            &&& buckets[k].last - buckets[k].first < width
            &&& buckets[k].sum == series_sum(vals, buckets[k].first as int, buckets[k].last + 1)
        }
    &&& forall|k: int|
        0 <= k < buckets.len() - 1 ==> (#[trigger] buckets[k + 1]).first == buckets[k].last + 1
}

/// There is one way only to cut a series.
pub proof fn lemma_cut_unique(buckets: Seq<Bucket>, vals: Seq<u64>, width: int)
    requires
        width > 0,
        cuts(buckets, vals, width),
    ensures
        buckets == cut(vals, width),
{
    assert(bucket_count(vals.len() as int, width) >= 0) by (nonlinear_arith)
        requires
            width > 0,
            vals.len() >= 0,
    ;
    assert(buckets =~= cut(vals, width));
}

/// Each bucket of a cut begins at its position times the width, holds one
/// day at least and `width` days at most, and the sum of their values.
pub proof fn lemma_cut_bucket(vals: Seq<u64>, width: int, k: int)
    requires
        width > 0,
        0 <= k < bucket_count(vals.len() as int, width),
        vals.len() <= usize::MAX,
    ensures
        ({
            let b = bucket_at(vals, width, k);
            &&& b.first == k * width
            &&& b.first <= b.last < vals.len()
            &&& b.last - b.first < width
            &&& b.last + 1 == (if k * width + width <= vals.len() {
                k * width + width
            } else {
                vals.len() as int
            })
            &&& b.sum == series_sum(vals, b.first as int, b.last + 1)
        }),
{
    let n = vals.len() as int;
    let first = k * width;
    assert(0 <= first < n) by (nonlinear_arith)
        requires
            0 <= k < (n + width - 1) / width,
            width > 0,
            first == k * width,
    ;
    let end = if first + width <= n {
        first + width
    } else {
        n
    };
    lemma_series_sum_bound(vals, first, end);
    assert((end - first) * u64::MAX <= u128::MAX) by (nonlinear_arith)
        requires
            0 <= end - first <= usize::MAX,
    ;
}

/// The width of the buckets of the trend: the fallback where the series has
/// three days at least and the full width gives fewer than three buckets.
pub open spec fn trend_width(n: int) -> int {
    if n >= 3 && bucket_count(n, TREND_WINDOW_DAYS as int) < 3 {
        TREND_FALLBACK_DAYS as int
    } else {
        TREND_WINDOW_DAYS as int
    }
}

proof fn lemma_series_sum_bound(vals: Seq<u64>, from: int, to: int)
    requires
        0 <= from <= to <= vals.len(),
    ensures
        series_sum(vals, from, to) <= (to - from) * u64::MAX,
    decreases to - from,
{
    if from < to {
        lemma_series_sum_bound(vals, from, to - 1);
        assert((to - from) * u64::MAX == (to - 1 - from) * u64::MAX + u64::MAX) by (nonlinear_arith);
    }
}

/// A run of equal values sums to the value times the length of the run.
pub proof fn lemma_uniform_sum(vals: Seq<u64>, from: int, to: int, v: u64)
    requires
        0 <= from <= to <= vals.len(),
        forall|i: int| 0 <= i < vals.len() ==> #[trigger] vals[i] == v,
    ensures
        series_sum(vals, from, to) == v * (to - from),
    decreases to - from,
{
    if from < to {
        lemma_uniform_sum(vals, from, to - 1, v);
        assert(vals[to - 1] == v);
        assert(v * (to - from) == v * (to - 1 - from) + v) by (nonlinear_arith);
    } else {
        assert(v * (to - from) == 0) by (nonlinear_arith)
            requires
                to - from == 0,
        ;
    }
}

/// Cuts a series into buckets of `width` days.
pub fn buckets(vals: &Vec<u64>, width: usize) -> (res: Vec<Bucket>)
    requires
        width > 0,
    ensures
        cuts(res@, vals@, width as int),
        runs(res@, vals@, width as int),
{
    let n = vals.len();
    let mut res: Vec<Bucket> = Vec::new();
    let mut first: usize = 0;
    proof {
        assert(bucket_count(0, width as int) == 0) by (nonlinear_arith)
            requires
                width > 0,
        ;
        assert(0 == 0 * width) by (nonlinear_arith);
    }
    while first < n
        invariant
            n == vals.len(),
            width > 0,
            first <= n,
            first < n ==> first == res.len() * width,
            first == n ==> res.len() == bucket_count(n as int, width as int),
            forall|k: int| 0 <= k < res.len() ==> #[trigger] res[k] == bucket_at(vals@, width as int, k),
            res.len() == 0 <==> first == 0,
            res.len() > 0 ==> res[0].first == 0 && res[res.len() - 1].last == first - 1,
            forall|k: int|
                0 <= k < res.len() ==> {
                    &&& (#[trigger] res[k]).first <= res[k].last < n
                    &&& res[k].last - res[k].first < width
                    &&& res[k].sum == series_sum(vals@, res[k].first as int, res[k].last + 1)
                },
            forall|k: int| 0 <= k < res.len() - 1 ==> (#[trigger] res[k + 1]).first == res[k].last + 1,
        decreases n - first,
    {
        let end: usize = if width <= n - first {
            first + width
        } else {
            n
        };
        let mut sum: u128 = 0;
        let mut i: usize = first;
        while i < end
            invariant
                first <= i <= end <= n,
                n == vals.len(),
                sum == series_sum(vals@, first as int, i as int),
            decreases end - i,
        {
            proof {
                lemma_series_sum_bound(vals@, first as int, i as int);
                assert((i - first) * u64::MAX + u64::MAX <= u128::MAX) by (nonlinear_arith)
                    requires
                        0 <= i - first <= usize::MAX,
                ;
            }
            sum = sum + vals[i] as u128;
            i += 1;
        }
        let ghost k = res.len() as int;
        let ghost before = res@;
        res.push(Bucket { first, last: end - 1, sum });
        proof {
            assert(res[k] == bucket_at(vals@, width as int, k));
            assert forall|j: int| 0 <= j < res.len() - 1 implies (#[trigger] res[j + 1]).first
                == res[j].last + 1 by {
                if j + 1 < k {
                    assert(before[j + 1].first == before[j].last + 1);
                }
            }
            if end == n {
                assert((n + width - 1) / (width as int) == k + 1) by (nonlinear_arith)
                    requires
                        first == k * width,
                        first < n,
                        n - first <= width,
                        width > 0,
                ;
            } else {
                assert(first + width == (k + 1) * width) by (nonlinear_arith)
                    requires
                        first == k * width,
                ;
            }
        }
        first = end;
    }
    res
}

/// The control points of the trend over a series: buckets of eight days, or of
/// four where eight give fewer than three points.
pub fn trend_buckets(vals: &Vec<u64>) -> (res: Vec<Bucket>)
    ensures
        cuts(res@, vals@, trend_width(vals.len() as int)),
        runs(res@, vals@, TREND_WINDOW_DAYS as int),
{
    let coarse = buckets(vals, TREND_WINDOW_DAYS);
    if coarse.len() < 3 && vals.len() >= 3 {
        let fine = buckets(vals, TREND_FALLBACK_DAYS);
        if fine.len() >= coarse.len() {
            return fine;
        }
    }
    coarse
}

/// On a series of equal values every control point of the trend has that
/// value as its mean: the trend is flat.
pub proof fn lemma_uniform_trend(vals: Seq<u64>, v: u64, buckets: Seq<Bucket>, width: int)
    requires
        width > 0,
        cuts(buckets, vals, width),
        forall|i: int| 0 <= i < vals.len() ==> #[trigger] vals[i] == v,
        vals.len() <= usize::MAX,
    ensures
        forall|k: int|
            0 <= k < buckets.len() ==> (#[trigger] buckets[k]).first <= buckets[k].last
                && buckets[k].sum == v * (buckets[k].last - buckets[k].first + 1),
{
    assert forall|k: int| 0 <= k < buckets.len() implies (#[trigger] buckets[k]).first
        <= buckets[k].last && buckets[k].sum == v * (buckets[k].last - buckets[k].first + 1) by {
        let n = vals.len() as int;
        let first = k * width;
        assert(k < bucket_count(n, width));
        assert(first < n && first >= 0) by (nonlinear_arith)
            requires
                0 <= k < (n + width - 1) / width,
                width > 0,
                first == k * width,
        ;
        let end = if first + width <= n {
            first + width
        } else {
            n
        };
        assert(buckets[k] == bucket_at(vals, width, k));
        lemma_uniform_sum(vals, first, end, v);
        lemma_series_sum_bound(vals, first, end);
        assert((end - first) * u64::MAX <= u128::MAX) by (nonlinear_arith)
            requires
                0 <= end - first <= usize::MAX,
        ;
    }
}

/// The greatest value of a series; zero for the empty series.
pub open spec fn series_max(vals: Seq<u64>) -> u64
    decreases vals.len(),
{
    if vals.len() == 0 {
        0
    } else if vals.len() == 1 || vals.last() >= series_max(vals.drop_last()) {
        vals.last()
    } else {
        series_max(vals.drop_last())
    }
}

/// The least value of a series; zero for the empty series.
pub open spec fn series_min(vals: Seq<u64>) -> u64
    decreases vals.len(),
{
    if vals.len() == 0 {
        0
    } else if vals.len() == 1 || vals.last() <= series_min(vals.drop_last()) {
        vals.last()
    } else {
        series_min(vals.drop_last())
    }
}

/// The least and greatest value bound the series and occur in it.
pub proof fn lemma_series_bounds(vals: Seq<u64>)
    requires
        vals.len() > 0,
    ensures
        forall|i: int| 0 <= i < vals.len() ==> series_min(vals) <= #[trigger] vals[i] <= series_max(vals),
        exists|i: int| 0 <= i < vals.len() && vals[i] == series_min(vals),
        exists|i: int| 0 <= i < vals.len() && vals[i] == series_max(vals),
        series_min(vals) <= series_max(vals),
    decreases vals.len(),
{
    let last = vals.len() - 1;
    if vals.len() == 1 {
        assert(vals[0] == series_min(vals));
        assert(vals[0] == series_max(vals));
    } else {
        let rest = vals.drop_last();
        lemma_series_bounds(rest);
        let i = choose|i: int| 0 <= i < rest.len() && rest[i] == series_min(rest);
        let j = choose|j: int| 0 <= j < rest.len() && rest[j] == series_max(rest);
        assert(vals[i] == rest[i] && vals[j] == rest[j]);
        assert(vals[last] == vals.last());
        assert forall|k: int| 0 <= k < vals.len() implies series_min(vals) <= #[trigger] vals[k]
            <= series_max(vals) by {
            if k < last {
                assert(vals[k] == rest[k]);
            }
        }
        if vals.last() <= series_min(rest) {
            assert(vals[last] == series_min(vals));
        } else {
            assert(vals[i] == series_min(vals));
        }
        if vals.last() >= series_max(rest) {
            assert(vals[last] == series_max(vals));
        } else {
            assert(vals[j] == series_max(vals));
        }
    }
}

/// How many units of the value axis make one minute.
pub const AXIS_UNITS_PER_MINUTE: u128 = 100;

/// The top of the axis where the whole series is zero: half an hour.
pub const AXIS_FLOOR: u128 = 3_000;

/// The range of the value axis for a series whose least value is `min` and
/// whose greatest is `max`, in hundredths of a minute. Seven hundredths of the
/// spread are left free above and below, but nothing below zero. A flat series
/// gets the range from zero to its value, half an hour at least.
pub open spec fn axis_range(min: u64, max: u64) -> (int, int) {
    if max <= min {
        (
            0,
            if max * 100 >= 3_000 {
                max * 100
            } else {
                3_000
            },
        )
    } else {
        (
            if min * 100 >= 7 * (max - min) {
                min * 100 - 7 * (max - min)
            } else {
                0
            },
            max * 100 + 7 * (max - min),
        )
    }
}

/// The range of the axis is never empty.
pub proof fn lemma_axis_not_flat(min: u64, max: u64)
    ensures
        0 <= axis_range(min, max).0 < axis_range(min, max).1,
{
}

/// The range of the value axis for a series, in hundredths of a minute; none
/// for the empty series, for which nothing is drawn.
pub fn y_domain(vals: &Vec<u64>) -> (res: Option<(u128, u128)>)
    ensures
        vals.len() == 0 <==> res is None,
        res matches Some(range) ==> range.0 == axis_range(series_min(vals@), series_max(vals@)).0
            && range.1 == axis_range(series_min(vals@), series_max(vals@)).1 && range.0 < range.1,
{
    if vals.len() == 0 {
        return None;
    }
    let mut min: u64 = vals[0];
    let mut max: u64 = vals[0];
    let mut i: usize = 1;
    assert(vals@.take(1).drop_last().len() == 0);
    while i < vals.len()
        invariant
            1 <= i <= vals.len(),
            min == series_min(vals@.take(i as int)),
            max == series_max(vals@.take(i as int)),
        decreases vals.len() - i,
    {
        proof {
            let next = vals@.take(i + 1);
            assert(next.drop_last() =~= vals@.take(i as int));
            assert(next.last() == vals@[i as int]);
        }
        if vals[i] <= min {
            min = vals[i];
        }
        if vals[i] >= max {
            max = vals[i];
        }
        i += 1;
    }
    assert(vals@.take(i as int) =~= vals@);
    let top: u128 = max as u128 * AXIS_UNITS_PER_MINUTE;
    if max <= min {
        if top >= AXIS_FLOOR {
            Some((0, top))
        } else {
            Some((0, AXIS_FLOOR))
        }
    } else {
        let margin: u128 = 7 * (max - min) as u128;
        let bottom: u128 = min as u128 * AXIS_UNITS_PER_MINUTE;
        if bottom >= margin {
            Some((bottom - margin, top + margin))
        } else {
            Some((0, top + margin))
        }
    }
}

/// The minutes of each listed day, both activities together.
pub fn daily_minutes(per_day: &HashMap<i64, Totals>, days: &Vec<i64>) -> (vals: Vec<u64>)
    ensures
        vals.len() == days.len(),
        forall|i: int|
            0 <= i < days.len() ==> #[trigger] vals[i] == tallied(per_day@, days[i]).sum() / 60,
{
    let mut vals: Vec<u64> = Vec::new();
    let mut i: usize = 0;
    while i < days.len()
        invariant
            i <= days.len(),
            vals.len() == i,
            forall|k: int| 0 <= k < i ==> #[trigger] vals[k] == tallied(per_day@, days[k]).sum() / 60,
        decreases days.len() - i,
    {
        let t = lookup(per_day, days[i]);
        vals.push(t.total() / 60);
        i += 1;
    }
    vals
}

} // verus!
